//! The two-phase pipeline: map, aggregate, reduce.
//!
//! A run suspends twice, once while the map tasks settle and once while the
//! reduce tasks settle. `Framework` decides what happens around those two
//! points; launching the tasks and waiting for them is the driver's part.

use crate::aggregator::{
    group, grouped, keys_of, lemma_key_occurs, lemma_values_counted, view_of,
};
use crate::task_runner::{
    completed, failed, fan_in, lemma_all_completed, lemma_one_failure_isolated, Phase, Settled,
    TaskFailure, TaskOutcome,
};
use std::collections::HashMap;
use std::hash::Hash;
use vstd::prelude::*;
use vstd::std_specs::hash::obeys_key_model;

verus! {

/// The engine of one run over a sequence of input items.
pub struct Framework<I> {
    input: Vec<I>,
}

impl<I> View for Framework<I> {
    type V = Seq<I>;

    closed spec fn view(&self) -> Seq<I> {
        self.input@
    }
}

/// `entries` lists every entry of `sections` exactly once.
pub open spec fn lists<K, V>(entries: Seq<(K, V)>, sections: Map<K, V>) -> bool {
    &&& forall|i: int, j: int|
        #![trigger entries[i], entries[j]]
        0 <= i < j < entries.len() ==> entries[i].0 != entries[j].0
    &&& forall|i: int|
        0 <= i < entries.len() ==> sections.contains_key((#[trigger] entries[i]).0)
            && sections[entries[i].0] == entries[i].1
    &&& forall|key: K| #[trigger]
        sections.contains_key(key) ==> exists|i: int|
            0 <= i < entries.len() && (#[trigger] entries[i]).0 == key
}

/// The reduce tasks, each read as its key and the sequence of its values.
pub open spec fn tasks_of<K, O>(tasks: Seq<(K, Vec<O>)>) -> Seq<(K, Seq<O>)> {
    tasks.map_values(|task: (K, Vec<O>)| (task.0, task.1@))
}

/// `Vec::from_iter` on a `HashMap`: the map's consuming iterator moves every
/// key/value pair out of the map exactly once, in an order of its own, and
/// the vector collects them in that order. For keys that obey the hash-map
/// model the result therefore lists the map's entries, each once.
#[verifier::external_body]
fn into_entries<K, V>(sections: HashMap<K, V>) -> (entries: Vec<(K, V)>)
    ensures
        obeys_key_model::<K>() ==> lists(entries@, sections@),
{
    Vec::from_iter(sections)
}

/// A listing of the sections of a hash map is, section by section, a listing
/// of what the sections hold.
proof fn lemma_listing_of_views<K, O>(entries: Seq<(K, Vec<O>)>, sections: Map<K, Vec<O>>)
    requires
        lists(entries, sections),
    ensures
        lists(tasks_of(entries), view_of(sections)),
{
    let plain = tasks_of(entries);
    let views = view_of(sections);
    assert forall|key: K| #[trigger] views.contains_key(key) implies exists|i: int|
        0 <= i < plain.len() && (#[trigger] plain[i]).0 == key by {
        assert(sections.contains_key(key));
        let i = choose|i: int| 0 <= i < entries.len() && (#[trigger] entries[i]).0 == key;
        assert(plain[i].0 == key);
    }
    assert forall|i: int| 0 <= i < plain.len() implies views.contains_key((#[trigger] plain[i]).0)
        && views[plain[i].0] == plain[i].1 by {
        assert(sections.contains_key(entries[i].0));
    }
    assert forall|i: int, j: int| 0 <= i < j < plain.len() implies (#[trigger] plain[i]).0 != (
    #[trigger] plain[j]).0 by {
        assert(entries[i].0 != entries[j].0);
    }
}

/// A listing has one entry for each key, so as many entries as there are
/// keys.
pub proof fn lemma_one_entry_per_key<K, V>(entries: Seq<(K, V)>, sections: Map<K, V>)
    requires
        lists(entries, sections),
    ensures
        keys_of(entries) == sections.dom(),
        sections.dom().finite(),
        entries.len() == sections.dom().len(),
{
    let keys = entries.map_values(|entry: (K, V)| entry.0);
    assert forall|i: int, j: int|
        0 <= i < keys.len() && 0 <= j < keys.len() && i != j implies keys[i] != keys[j] by {
        if i < j {
            assert(entries[i].0 != entries[j].0);
        } else {
            assert(entries[j].0 != entries[i].0);
        }
    }
    keys.unique_seq_to_set();
    assert forall|key: K| keys.to_set().contains(key) <==> sections.dom().contains(key) by {
        if keys.to_set().contains(key) {
            let i = choose|i: int| 0 <= i < keys.len() && keys[i] == key;
            assert(sections.contains_key(entries[i].0));
        }
        if sections.contains_key(key) {
            let i = choose|i: int| 0 <= i < entries.len() && (#[trigger] entries[i]).0 == key;
            assert(keys[i] == key);
        }
    }
    assert(keys.to_set() =~= sections.dom());
    assert(keys_of(entries) =~= sections.dom());
}

/// Completeness: when every map task completes, task `i` with what `mapper`
/// gives to item `i`, then nothing is reported, and the keys of the reduce
/// tasks are exactly the keys that `mapper` gives to the items of `input`.
pub proof fn lemma_completeness<I, K, O>(
    input: Seq<I>,
    mapper: spec_fn(I) -> (K, O),
    outcomes: Seq<TaskOutcome<(K, O)>>,
    tasks: Seq<(K, Seq<O>)>,
)
    requires
        outcomes.len() == input.len(),
        forall|i: int|
            0 <= i < input.len() ==> outcomes[i] == TaskOutcome::Completed(mapper(input[i])),
        lists(tasks, grouped(completed(outcomes))),
    ensures
        failed(Phase::Mapping, outcomes).len() == 0,
        completed(outcomes) == input.map_values(mapper),
        keys_of(tasks) == keys_of(input.map_values(mapper)),
{
    lemma_all_completed(Phase::Mapping, outcomes);
    let mapped = input.map_values(mapper);
    assert(completed(outcomes) == mapped);
    lemma_one_entry_per_key(tasks, grouped(mapped));
    assert(grouped(mapped).dom() =~= keys_of(mapped));
}

/// No loss, no duplication: a reduce task holds `value` exactly as often as
/// the map tasks that completed produced it for the key of that task, and a
/// key without a reduce task was produced by no map task.
pub proof fn lemma_no_loss_no_duplication<K, O>(
    outcomes: Seq<TaskOutcome<(K, O)>>,
    tasks: Seq<(K, Seq<O>)>,
    key: K,
    value: O,
)
    requires
        lists(tasks, grouped(completed(outcomes))),
    ensures
        forall|t: int|
            0 <= t < tasks.len() && (#[trigger] tasks[t]).0 == key ==> tasks[t].1.to_multiset().count(
                value,
            ) == completed(outcomes).to_multiset().count((key, value)),
        !keys_of(tasks).contains(key) ==> completed(outcomes).to_multiset().count((key, value))
            == 0,
{
    lemma_values_counted(completed(outcomes), key, value);
    lemma_one_entry_per_key(tasks, grouped(completed(outcomes)));
}

/// Isolation: when exactly one of the map tasks fails, the run goes on. That
/// one failure is reported, and the reduce tasks are those of the pairs of
/// all the other map tasks.
pub proof fn lemma_isolation<K, O>(
    outcomes: Seq<TaskOutcome<(K, O)>>,
    failing: int,
    tasks: Seq<(K, Seq<O>)>,
)
    requires
        0 <= failing < outcomes.len(),
        outcomes[failing] is Failed,
        forall|i: int| 0 <= i < outcomes.len() && i != failing ==> outcomes[i] is Completed,
        lists(tasks, grouped(completed(outcomes))),
    ensures
        failed(Phase::Mapping, outcomes).len() == 1,
        completed(outcomes).len() == outcomes.len() - 1,
        completed(outcomes) == outcomes.remove(failing).map_values(
            |outcome: TaskOutcome<(K, O)>| outcome->Completed_0,
        ),
        lists(
            tasks,
            grouped(
                outcomes.remove(failing).map_values(
                    |outcome: TaskOutcome<(K, O)>| outcome->Completed_0,
                ),
            ),
        ),
        keys_of(tasks) == keys_of(
            outcomes.remove(failing).map_values(
                |outcome: TaskOutcome<(K, O)>| outcome->Completed_0,
            ),
        ),
{
    lemma_one_failure_isolated(Phase::Mapping, outcomes, failing);
    let survivors = outcomes.remove(failing).map_values(
        |outcome: TaskOutcome<(K, O)>| outcome->Completed_0,
    );
    lemma_one_entry_per_key(tasks, grouped(survivors));
    assert(grouped(survivors).dom() =~= keys_of(survivors));
}

impl<I> Framework<I> {
    /// An engine that owns `input` for the run.
    pub fn new(input: Vec<I>) -> (framework: Self)
        ensures
            framework@ == input@,
    {
        Framework { input }
    }

    /// The work of the map phase: one task per input item, in input order,
    /// each with a copy of its item that the task owns alone. The input
    /// itself stays as it is.
    pub fn map_tasks(&self) -> (tasks: Vec<I>) where I: Clone
        ensures
            tasks@.len() == self@.len(),
            forall|i: int| 0 <= i < self@.len() ==> cloned(self@[i], #[trigger] tasks@[i]),
    {
        self.input.clone()
    }

    /// Settles the map phase: the pairs of the map tasks that completed, and
    /// one failure for each that did not.
    pub fn map<K, O>(&self, outcomes: Vec<TaskOutcome<(K, O)>>) -> (settled: Settled<(K, O)>)
        ensures
            settled.outputs@ == completed(outcomes@),
            settled.failures@ == failed(Phase::Mapping, outcomes@),
            settled.outputs@.len() + settled.failures@.len() == outcomes@.len(),
    {
        fan_in(Phase::Mapping, outcomes)
    }

    /// The work of the reduce phase: the pairs grouped by key, and one task
    /// per group. For keys that obey the hash-map model there is exactly one
    /// task for each distinct key of `mapped`, and it holds all the values of
    /// its key, in the order of `mapped`. The order of the tasks is the hash
    /// map's own.
    pub fn reduce_tasks<K: Eq + Hash, O>(&self, mapped: Vec<(K, O)>) -> (tasks: Vec<(K, Vec<O>)>)
        ensures
            obeys_key_model::<K>() ==> lists(tasks_of(tasks@), grouped(mapped@)),
            obeys_key_model::<K>() ==> tasks@.len() == keys_of(mapped@).len(),
            obeys_key_model::<K>() ==> forall|t: int|
                0 <= t < tasks@.len() ==> (#[trigger] tasks@[t]).1@.len() > 0,
    {
        let sections = group(mapped);
        let tasks = into_entries(sections);
        proof {
            if obeys_key_model::<K>() {
                lemma_listing_of_views(tasks@, sections@);
                lemma_one_entry_per_key(tasks_of(tasks@), grouped(mapped@));
                assert(grouped(mapped@).dom() =~= keys_of(mapped@));
                assert forall|t: int| 0 <= t < tasks@.len() implies (#[trigger] tasks@[t]).1@.len()
                    > 0 by {
                    lemma_key_occurs(mapped@, tasks_of(tasks@)[t].0);
                }
            }
        }
        tasks
    }

    /// Settles the reduce phase: one failure for each reduce task that did
    /// not complete. The reductions of the other keys stand.
    pub fn reduce(&self, outcomes: Vec<TaskOutcome<()>>) -> (failures: Vec<TaskFailure>)
        ensures
            failures@ == failed(Phase::Reducing, outcomes@),
    {
        fan_in(Phase::Reducing, outcomes).failures
    }
}

} // verus!
