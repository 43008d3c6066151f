//! Walking a map with integer keys in ascending order.
use std::collections::BTreeMap;

use vstd::prelude::*;

verus! {

/// Those of `keys` that are less than `bound`, in ascending order.
pub open spec fn keys_below(keys: Set<u32>, bound: nat) -> Seq<u32>
    decreases bound,
{
    if bound == 0 {
        Seq::empty()
    } else {
        let before = keys_below(keys, (bound - 1) as nat);
        if bound <= 0x1_0000_0000 && keys.contains((bound - 1) as u32) {
            before.push((bound - 1) as u32)
        } else {
            before
        }
    }
}

/// All of `keys` in ascending order.
pub open spec fn ordered_keys(keys: Set<u32>) -> Seq<u32> {
    keys_below(keys, 0x1_0000_0000)
}

/// The values of `m` in ascending order of their keys.
pub open spec fn ordered_values<V>(m: Map<u32, V>) -> Seq<V> {
    ordered_keys(m.dom()).map_values(|k: u32| m[k])
}

/// Several lists, one behind the other.
pub open spec fn concat<A>(lists: Seq<Seq<A>>) -> Seq<A>
    decreases lists.len(),
{
    if lists.len() == 0 {
        Seq::empty()
    } else {
        concat(lists.drop_last()) + lists.last()
    }
}

/// One more list behind several.
pub proof fn lemma_concat_push<A>(lists: Seq<Seq<A>>, list: Seq<A>)
    ensures
        concat(lists.push(list)) == concat(lists) + list,
{
    assert(lists.push(list).drop_last() =~= lists);
}

/// No key from `low` on and below `high` adds nothing.
proof fn lemma_gap(keys: Set<u32>, low: nat, high: nat)
    requires
        low <= high,
        forall|k: u32| low <= k < high ==> !#[trigger] keys.contains(k),
    ensures
        keys_below(keys, low) == keys_below(keys, high),
    decreases high - low,
{
    if low < high {
        lemma_gap(keys, low, (high - 1) as nat);
    }
}

/// The keys in the ascending order are the keys of the set.
pub proof fn lemma_keys_below(keys: Set<u32>, bound: nat)
    ensures
        forall|k: u32| #[trigger]
            keys_below(keys, bound).contains(k) <==> keys.contains(k) && k < bound,
        forall|i: int, j: int|
            0 <= i < j < keys_below(keys, bound).len() ==> keys_below(keys, bound)[i] < keys_below(
                keys,
                bound,
            )[j],
    decreases bound,
{
    if bound > 0 {
        lemma_keys_below(keys, (bound - 1) as nat);
        let before = keys_below(keys, (bound - 1) as nat);
        let all = keys_below(keys, bound);
        assert forall|i: int, j: int| 0 <= i < j < all.len() implies all[i] < all[j] by {
            if j == before.len() {
                assert(before.contains(before[i]));
            }
        }
        assert forall|k: u32| #[trigger] all.contains(k) <==> keys.contains(k) && k < bound by {
            if keys.contains(k) && k < bound {
                if k == bound - 1 {
                    assert(all.last() == k);
                } else {
                    assert(before.contains(k));
                    let i = choose|i: int| 0 <= i < before.len() && before[i] == k;
                    assert(all[i] == k);
                }
            }
            if all.contains(k) {
                let i = choose|i: int| 0 <= i < all.len() && all[i] == k;
                if i < before.len() {
                    assert(before.contains(before[i]));
                }
            }
        }
    }
}

/// What `lists` gives for each key less than `bound`, in ascending order of the keys.
pub open spec fn lists_below<A>(lists: spec_fn(u32) -> Seq<A>, bound: nat) -> Seq<A>
    decreases bound,
{
    if bound == 0 {
        Seq::empty()
    } else {
        let before = lists_below(lists, (bound - 1) as nat);
        if bound <= 0x1_0000_0000 {
            before + lists((bound - 1) as u32)
        } else {
            before
        }
    }
}

/// Keys that stand for no items at all can be left out of a walk, or be walked too.
pub proof fn lemma_lists_below<A>(
    keys: Set<u32>,
    pick: spec_fn(u32) -> Seq<A>,
    lists: spec_fn(u32) -> Seq<A>,
    bound: nat,
)
    requires
        forall|k: u32| #[trigger] keys.contains(k) ==> lists(k) == pick(k),
        forall|k: u32| !#[trigger] keys.contains(k) ==> lists(k) == Seq::<A>::empty(),
    ensures
        concat(keys_below(keys, bound).map_values(pick)) == lists_below(lists, bound),
    decreases bound,
{
    if bound > 0 {
        lemma_lists_below(keys, pick, lists, (bound - 1) as nat);
        let before = keys_below(keys, (bound - 1) as nat);
        if bound <= 0x1_0000_0000 {
            let k = (bound - 1) as u32;
            if keys.contains(k) {
                assert(before.push(k).map_values(pick) =~= before.map_values(pick).push(pick(k)));
                lemma_concat_push(before.map_values(pick), pick(k));
            } else {
                assert(lists_below(lists, (bound - 1) as nat) + lists(k) =~= lists_below(
                    lists,
                    (bound - 1) as nat,
                ));
            }
        }
    } else {
        assert(keys_below(keys, bound).map_values(pick) =~= Seq::<Seq<A>>::empty());
    }
}

/// Two walks that find the same items under each key find the same items.
pub proof fn lemma_same_lists<A>(
    lists: spec_fn(u32) -> Seq<A>,
    others: spec_fn(u32) -> Seq<A>,
    bound: nat,
)
    requires
        forall|k: u32| k < bound ==> #[trigger] lists(k) == others(k),
    ensures
        lists_below(lists, bound) == lists_below(others, bound),
    decreases bound,
{
    if bound > 0 {
        lemma_same_lists(lists, others, (bound - 1) as nat);
        if bound <= 0x1_0000_0000 {
            assert(lists((bound - 1) as u32) == others((bound - 1) as u32));
        }
    }
}

/// What a filter leaves of a walk is what it leaves under each key.
pub proof fn lemma_filter_lists<A>(
    lists: spec_fn(u32) -> Seq<A>,
    keep: spec_fn(A) -> bool,
    bound: nat,
)
    ensures
        lists_below(lists, bound).filter(keep) == lists_below(
            |k: u32| lists(k).filter(keep),
            bound,
        ),
    decreases bound,
{
    if bound > 0 {
        lemma_filter_lists(lists, keep, (bound - 1) as nat);
        if bound <= 0x1_0000_0000 {
            Seq::filter_distributes_over_add(
                lists_below(lists, (bound - 1) as nat),
                lists((bound - 1) as u32),
                keep,
            );
        }
    } else {
        reveal(Seq::filter);
    }
}

/// A walk that finds items under one key alone finds just these.
pub proof fn lemma_single_list<A>(lists: spec_fn(u32) -> Seq<A>, key: u32, bound: nat)
    requires
        forall|k: u32| k != key ==> #[trigger] lists(k) == Seq::<A>::empty(),
    ensures
        lists_below(lists, bound) == if key < bound {
            lists(key)
        } else {
            Seq::<A>::empty()
        },
    decreases bound,
{
    if bound > 0 {
        lemma_single_list(lists, key, (bound - 1) as nat);
        if bound <= 0x1_0000_0000 {
            let k = (bound - 1) as u32;
            if k == key {
                assert(Seq::<A>::empty() + lists(key) =~= lists(key));
            } else {
                assert(lists(k) == Seq::<A>::empty());
                assert(lists_below(lists, k as nat) + Seq::<A>::empty() =~= lists_below(
                    lists,
                    k as nat,
                ));
            }
        }
    }
}

/// One more item at the end of the last list that has any comes last in the walk.
pub proof fn lemma_last_item<A>(
    lists: spec_fn(u32) -> Seq<A>,
    longer: spec_fn(u32) -> Seq<A>,
    key: u32,
    item: A,
    bound: nat,
)
    requires
        forall|k: u32| k != key ==> #[trigger] longer(k) == lists(k),
        forall|k: u32| k > key ==> #[trigger] lists(k) == Seq::<A>::empty(),
        longer(key) == lists(key).push(item),
    ensures
        lists_below(longer, bound) == if key < bound {
            lists_below(lists, bound).push(item)
        } else {
            lists_below(lists, bound)
        },
    decreases bound,
{
    if bound > 0 {
        lemma_last_item(lists, longer, key, item, (bound - 1) as nat);
        if bound <= 0x1_0000_0000 {
            let k = (bound - 1) as u32;
            let before = lists_below(lists, k as nat);
            if k == key {
                assert(before + lists(key).push(item) =~= (before + lists(key)).push(item));
            } else {
                assert(longer(k) == lists(k));
                if k > key {
                    assert(before.push(item) + Seq::<A>::empty() =~= (before
                        + Seq::<A>::empty()).push(item));
                }
            }
        }
    }
}

/// A list under a key behind all others comes last in the walk.
pub proof fn lemma_last_list<A>(
    lists: spec_fn(u32) -> Seq<A>,
    longer: spec_fn(u32) -> Seq<A>,
    key: u32,
    bound: nat,
)
    requires
        forall|k: u32| k != key ==> #[trigger] longer(k) == lists(k),
        forall|k: u32| k >= key ==> #[trigger] lists(k) == Seq::<A>::empty(),
    ensures
        lists_below(longer, bound) == if key < bound {
            lists_below(lists, bound) + longer(key)
        } else {
            lists_below(lists, bound)
        },
    decreases bound,
{
    if bound > 0 {
        lemma_last_list(lists, longer, key, (bound - 1) as nat);
        if bound <= 0x1_0000_0000 {
            let k = (bound - 1) as u32;
            let before = lists_below(lists, k as nat);
            if k == key {
                assert(lists(k) == Seq::<A>::empty());
                assert(before + Seq::<A>::empty() =~= before);
            } else {
                assert(longer(k) == lists(k));
                if k > key {
                    assert(lists(k) == Seq::<A>::empty());
                    assert(before + Seq::<A>::empty() =~= before);
                    assert(before + longer(key) + Seq::<A>::empty() =~= before + longer(key));
                }
            }
        }
    }
}

/// A walk finds just what stands under some key.
pub proof fn lemma_listed<A>(lists: spec_fn(u32) -> Seq<A>, item: A, bound: nat)
    ensures
        lists_below(lists, bound).contains(item) <==> exists|k: u32|
            k < bound && #[trigger] lists(k).contains(item),
    decreases bound,
{
    if bound > 0 {
        lemma_listed(lists, item, (bound - 1) as nat);
        if bound <= 0x1_0000_0000 {
            let last = (bound - 1) as u32;
            let before = lists_below(lists, last as nat);
            let all = lists_below(lists, bound);
            if all.contains(item) {
                let i = choose|i: int| 0 <= i < all.len() && all[i] == item;
                if i < before.len() {
                    assert(before[i] == item);
                    assert(before.contains(item));
                } else {
                    assert(lists(last)[i - before.len()] == item);
                    assert(lists(last).contains(item));
                }
            }
            if lists(last).contains(item) {
                let list = lists(last);
                let i = choose|i: int| 0 <= i < list.len() && list[i] == item;
                assert(all[before.len() + i] == item);
            }
            if before.contains(item) {
                let i = choose|i: int| 0 <= i < before.len() && before[i] == item;
                assert(all[i] == item);
            }
        }
    }
}

proof fn lemma_ascending(keys: Seq<u32>)
    requires
        vstd::std_specs::btree::increasing_seq(keys),
    ensures
        forall|i: int, j: int| 0 <= i < j < keys.len() ==> keys[i] < keys[j],
{
    assert forall|i: int, j: int| 0 <= i < j < keys.len() implies keys[i] < keys[j] by {
        assert(vstd::std_specs::cmp::OrdSpec::cmp_spec(&keys[i], &keys[j]) is Less);
    }
}

/// The entries of `m` in ascending order of their keys.
pub fn entries<V>(m: &BTreeMap<u32, V>) -> (list: Vec<(u32, &V)>)
    ensures
        list@.len() == ordered_keys(m@.dom()).len(),
        forall|i: int|
            0 <= i < list@.len() ==> {
                &&& (#[trigger] list@[i]).0 == ordered_keys(m@.dom())[i]
                &&& m@.contains_key(list@[i].0)
                &&& *list@[i].1 == m@[list@[i].0]
            },
{
    let mut list: Vec<(u32, &V)> = Vec::new();
    let ghost mut bound: nat = 0;
    let iter = m.iter();
    let ghost walk = vstd::std_specs::iter::IteratorSpec::remaining(&iter);
    let ghost walked = walk.map_values(|kv: (&u32, &V)| *kv.0);
    proof {
        lemma_ascending(walked);
        assert forall|k: u32| #[trigger] m@.contains_key(k) implies walked.contains(k) by {
            let i = walk.index_of((&k, &m@[k]));
            assert(walked[i] == k);
        }
    }
    for entry in it: iter
        invariant
            it.seq() == walk,
            walked == walk.map_values(|kv: (&u32, &V)| *kv.0),
            forall|i: int, j: int| 0 <= i < j < walked.len() ==> walked[i] < walked[j],
            forall|k: u32| #[trigger] m@.contains_key(k) ==> walked.contains(k),
            forall|i: int|
                0 <= i < walk.len() ==> m@.contains_key(*(#[trigger] walk[i]).0) && m@[*walk[i].0]
                    == *walk[i].1,
            list@.len() == it.index(),
            forall|i: int| 0 <= i < list@.len() ==> (#[trigger] list@[i]).0 == walked[i],
            forall|i: int| 0 <= i < list@.len() ==> *(#[trigger] list@[i]).1 == m@[list@[i].0],
            bound == if it.index() == 0 {
                0
            } else {
                walked[it.index() - 1] + 1
            },
            keys_below(m@.dom(), bound) == walked.take(it.index() as int),
    {
        list.push((*entry.0, entry.1));
        proof {
            let key = *entry.0;
            assert(key == walked[it.index() as int]);
            assert forall|k: u32| bound <= k < key implies !#[trigger] m@.dom().contains(k) by {
                if m@.contains_key(k) {
                    let i = choose|i: int| 0 <= i < walked.len() && walked[i] == k;
                    assert(walked[i] < walked[it.index() as int]);
                }
            }
            lemma_gap(m@.dom(), bound, key as nat);
            bound = key as nat + 1;
            assert(walked.take(it.index() + 1) =~= walked.take(it.index() as int).push(key));
        }
    }
    proof {
        assert forall|k: u32| bound <= k < 0x1_0000_0000 implies !#[trigger] m@.dom().contains(
            k,
        ) by {
            if m@.contains_key(k) {
                let i = choose|i: int| 0 <= i < walked.len() && walked[i] == k;
                assert(walked[i] <= walked.last());
            }
        }
        lemma_gap(m@.dom(), bound, 0x1_0000_0000);
        assert(walked.take(walked.len() as int) =~= walked);
    }
    list
}

/// Each key is walked once, smaller keys before greater ones, and no others.
pub proof fn keys_are_walked_in_ascending_order(keys: Set<u32>, i: int, j: int, key: u32)
    ensures
        ordered_keys(keys).contains(key) <==> keys.contains(key),
        0 <= i < j < ordered_keys(keys).len() ==> ordered_keys(keys)[i] < ordered_keys(keys)[j],
{
    lemma_keys_below(keys, 0x1_0000_0000);
}

/// Lists that are put together keep their items and their order.
pub proof fn lists_are_put_one_behind_the_other<A>(lists: Seq<Seq<A>>, list: Seq<A>)
    ensures
        concat(Seq::<Seq<A>>::empty()) == Seq::<A>::empty(),
        concat(lists.push(list)) == concat(lists) + list,
{
    lemma_concat_push(lists, list);
}

} // verus!
