//! Grouping of the map phase's key/value pairs by key.
//!
//! The grouping is a single sequential pass over the pairs, which the map
//! phase has already collected; nothing here runs concurrently.
//!
//! The sections are kept in a `HashMap`, so what can be said of them rests on
//! the keys: the contracts speak for key types that obey the hash-map key
//! model (`obeys_key_model`), that is, whose hashing is deterministic and
//! whose `==` holds of identical keys only.

use std::collections::HashMap;
use std::hash::Hash;
use vstd::multiset::Multiset;
use vstd::prelude::*;
use vstd::std_specs::hash::obeys_key_model;

verus! {

/// The values of a run, grouped by key: every key that the map phase
/// produced, with all of its values in the order in which they were
/// aggregated.
pub type GroupedValues<K, O> = HashMap<K, Vec<O>>;

/// What one pair contributes to the values of `key`.
pub open spec fn value_for<K, O>(key: K, pair: (K, O)) -> Option<O> {
    if pair.0 == key {
        Some(pair.1)
    } else {
        None
    }
}

/// The values that `pairs` attributes to `key`, in the order of `pairs`.
pub open spec fn values_of<K, O>(pairs: Seq<(K, O)>, key: K) -> Seq<O> {
    pairs.filter_map(|pair: (K, O)| value_for(key, pair))
}

/// The distinct keys that occur in `pairs`.
pub open spec fn keys_of<K, O>(pairs: Seq<(K, O)>) -> Set<K> {
    Set::new(|key: K| exists|i: int| 0 <= i < pairs.len() && (#[trigger] pairs[i]).0 == key)
}

/// The grouping of `pairs`: every key that occurs, with all of its values.
pub open spec fn grouped<K, O>(pairs: Seq<(K, O)>) -> Map<K, Seq<O>> {
    Map::new(|key: K| keys_of(pairs).contains(key), |key: K| values_of(pairs, key))
}

/// The sections of a hash map, each read as the sequence of its values.
pub open spec fn view_of<K, O>(sections: Map<K, Vec<O>>) -> Map<K, Seq<O>> {
    sections.map_values(|values: Vec<O>| values@)
}

/// The sections of a grouping, each read as the multiset of its values.
pub open spec fn unordered<K, O>(sections: Map<K, Seq<O>>) -> Map<K, Multiset<O>> {
    sections.map_values(|values: Seq<O>| values.to_multiset())
}

/// One more pair adds its value to the values of its own key and to no other.
pub proof fn lemma_values_of_push<K, O>(pairs: Seq<(K, O)>, pair: (K, O), key: K)
    ensures
        values_of(pairs.push(pair), key) == if pair.0 == key {
            values_of(pairs, key).push(pair.1)
        } else {
            values_of(pairs, key)
        },
{
    assert(pairs.push(pair).drop_last() == pairs);
}

/// A key occurs in `pairs` exactly if `pairs` attributes a value to it: no
/// section of a grouping is empty.
pub proof fn lemma_key_occurs<K, O>(pairs: Seq<(K, O)>, key: K)
    ensures
        keys_of(pairs).contains(key) <==> values_of(pairs, key).len() > 0,
    decreases pairs.len(),
{
    if pairs.len() > 0 {
        let init = pairs.drop_last();
        let last = pairs.last();
        assert(init.push(last) == pairs);
        lemma_key_occurs(init, key);
        lemma_values_of_push(init, last, key);
        if keys_of(init).contains(key) {
            let i = choose|i: int| 0 <= i < init.len() && (#[trigger] init[i]).0 == key;
            assert(pairs[i].0 == key);
        }
        if keys_of(pairs).contains(key) && last.0 != key {
            let i = choose|i: int| 0 <= i < pairs.len() && (#[trigger] pairs[i]).0 == key;
            assert(init[i].0 == key);
        }
        if last.0 == key {
            assert(pairs[pairs.len() - 1].0 == key);
        }
    }
}

/// Grouping one more pair appends its value to the section of its key.
pub proof fn lemma_grouped_push<K, O>(pairs: Seq<(K, O)>, pair: (K, O))
    ensures
        grouped(pairs.push(pair)) == grouped(pairs).insert(
            pair.0,
            values_of(pairs, pair.0).push(pair.1),
        ),
{
    let more = pairs.push(pair);
    let expected = grouped(pairs).insert(pair.0, values_of(pairs, pair.0).push(pair.1));
    assert forall|key: K| grouped(more).contains_key(key) <==> expected.contains_key(key) by {
        lemma_key_occurs(pairs, key);
        lemma_key_occurs(more, key);
        lemma_values_of_push(pairs, pair, key);
    }
    assert forall|key: K| grouped(more).contains_key(key) implies grouped(more)[key]
        == expected[key] by {
        lemma_values_of_push(pairs, pair, key);
    }
    assert(grouped(more) =~= expected);
}

/// No value is lost, duplicated or attributed to another key: `value` occurs
/// among the values of `key` exactly as often as the pair `(key, value)`
/// occurs in `pairs`. A key without a section has no pair at all.
pub proof fn lemma_values_counted<K, O>(pairs: Seq<(K, O)>, key: K, value: O)
    ensures
        values_of(pairs, key).to_multiset().count(value) == pairs.to_multiset().count(
            (key, value),
        ),
        !grouped(pairs).contains_key(key) ==> pairs.to_multiset().count((key, value)) == 0,
    decreases pairs.len(),
{
    broadcast use vstd::multiset::group_multiset_axioms;

    if pairs.len() == 0 {
        pairs.to_multiset_ensures();
        values_of(pairs, key).to_multiset_ensures();
    } else {
        let init = pairs.drop_last();
        let last = pairs.last();
        assert(init.push(last) == pairs);
        lemma_values_counted(init, key, value);
        lemma_values_of_push(init, last, key);
        vstd::seq_lib::to_multiset_build(init, last);
        if last.0 == key {
            vstd::seq_lib::to_multiset_build(values_of(init, key), last.1);
        }
    }
    lemma_key_occurs(pairs, key);
    values_of(pairs, key).to_multiset_ensures();
}

/// Grouping does not depend on the order of the pairs: two orderings of the
/// same pairs give the same keys, and each key the same values up to their
/// order.
pub proof fn lemma_grouping_ignores_order<K, O>(first: Seq<(K, O)>, second: Seq<(K, O)>)
    requires
        first.to_multiset() == second.to_multiset(),
    ensures
        unordered(grouped(first)) == unordered(grouped(second)),
{
    assert forall|key: K| values_of(first, key).to_multiset() == values_of(
        second,
        key,
    ).to_multiset() by {
        assert forall|value: O|
            values_of(first, key).to_multiset().count(value) == values_of(
                second,
                key,
            ).to_multiset().count(value) by {
            lemma_values_counted(first, key, value);
            lemma_values_counted(second, key, value);
        }
        assert(values_of(first, key).to_multiset() =~= values_of(second, key).to_multiset());
    }
    assert forall|key: K| keys_of(first).contains(key) <==> keys_of(second).contains(key) by {
        lemma_key_occurs(first, key);
        lemma_key_occurs(second, key);
        values_of(first, key).to_multiset_ensures();
        values_of(second, key).to_multiset_ensures();
    }
    assert(unordered(grouped(first)) =~= unordered(grouped(second)));
}

/// Groups the values of `pairs` by key in a single pass. For keys that obey
/// the hash-map model, the result holds exactly the keys that occur in
/// `pairs`, each with all of its values in the order in which `pairs` holds
/// them; so no section is empty.
pub fn group<K: Eq + Hash, O>(pairs: Vec<(K, O)>) -> (sections: GroupedValues<K, O>)
    ensures
        obeys_key_model::<K>() ==> view_of(sections@) == grouped(pairs@),
        obeys_key_model::<K>() ==> forall|key: K| #[trigger]
            sections@.contains_key(key) ==> sections@[key]@.len() > 0,
{
    let ghost all = pairs@;
    let mut sections: GroupedValues<K, O> = HashMap::new();
    assert(view_of(sections@) =~= grouped(all.take(0)));
    for pair in it: pairs.into_iter()
        invariant
            it.seq() == all,
            obeys_key_model::<K>() ==> view_of(sections@) == grouped(all.take(it.index())),
    {
        let ghost seen = all.take(it.index());
        let ghost before = sections@;
        let (key, value) = pair;
        let mut values = match sections.remove(&key) {
            Some(values) => values,
            None => Vec::new(),
        };
        proof {
            if obeys_key_model::<K>() {
                lemma_key_occurs(seen, key);
                assert(view_of(before).contains_key(key) == before.contains_key(key));
                if before.contains_key(key) {
                    assert(view_of(before)[key] == before[key]@);
                }
                assert(values@ =~= values_of(seen, key));
            }
        }
        values.push(value);
        sections.insert(key, values);
        proof {
            if obeys_key_model::<K>() {
                lemma_grouped_push(seen, pair);
                assert(all.take(it.index() + 1) == seen.push(pair));
                assert(view_of(sections@) =~= view_of(before).insert(key, values@));
            }
        }
    }
    proof {
        assert(all.take(all.len() as int) == all);
        if obeys_key_model::<K>() {
            assert forall|key: K| #[trigger] sections@.contains_key(key) implies sections@[key]@.len()
                > 0 by {
                lemma_key_occurs(all, key);
                assert(view_of(sections@).contains_key(key));
                assert(view_of(sections@)[key] == sections@[key]@);
            }
        }
    }
    sections
}

} // verus!
