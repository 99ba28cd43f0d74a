//! The fan-in side of running tasks: telling the outputs of the tasks that
//! completed from the failures of those that did not.
//!
//! A task is one concurrent unit of work. Whatever happens to it, it ends in
//! a [`TaskOutcome`], and no outcome is more than a value: a failure is
//! recorded and never raised.

use vstd::prelude::*;

verus! {

/// The two phases of a run.
#[derive(Clone, Copy, Debug, PartialEq, Eq, Structural)]
pub enum Phase {
    Mapping,
    Reducing,
}

/// The terminal state of one concurrent unit of work.
#[derive(Debug)]
pub enum TaskOutcome<Y> {
    /// The task ran to its end and produced this output.
    Completed(Y),
    /// The task terminated abnormally; the text says why.
    Failed(String),
}

impl<Y> TaskOutcome<Y> {
    /// The outcome of a task that ran to its end with a tagged result: the
    /// task completed if its work succeeded, and counts as failed if its work
    /// rejected the item.
    pub fn from_result(result: Result<Y, String>) -> (outcome: Self)
        ensures
            outcome == match result {
                Ok(output) => TaskOutcome::Completed(output),
                Err(cause) => TaskOutcome::Failed(cause),
            },
    {
        match result {
            Ok(output) => TaskOutcome::Completed(output),
            Err(cause) => TaskOutcome::Failed(cause),
        }
    }
}

/// One isolated failure, kept for the diagnostic log only.
#[derive(Debug)]
pub struct TaskFailure {
    pub phase: Phase,
    pub cause: String,
}

/// What a phase leaves behind once all of its tasks have settled.
#[derive(Debug)]
pub struct Settled<Y> {
    pub outputs: Vec<Y>,
    pub failures: Vec<TaskFailure>,
}

/// The words that open the log line of a failure in `phase`.
pub open spec fn heading(phase: Phase) -> Seq<char> {
    match phase {
        Phase::Mapping => "Error during map: "@,
        Phase::Reducing => "Error during reduce: "@,
    }
}

impl TaskFailure {
    /// The line that reports this failure to the diagnostic log: the phase
    /// first, then the cause as it was given.
    pub fn message(&self) -> (line: String)
        ensures
            line@ == heading(self.phase) + self.cause@,
    {
        let heading = match self.phase {
            Phase::Mapping => "Error during map: ",
            Phase::Reducing => "Error during reduce: ",
        };
        String::from_str(heading).concat(self.cause.as_str())
    }
}

/// What a settled task contributes to the outputs of its phase.
pub open spec fn output_of<Y>(outcome: TaskOutcome<Y>) -> Option<Y> {
    match outcome {
        TaskOutcome::Completed(output) => Some(output),
        TaskOutcome::Failed(_) => None,
    }
}

/// What a settled task of `phase` contributes to the failures of its phase.
pub open spec fn failure_of<Y>(phase: Phase, outcome: TaskOutcome<Y>) -> Option<TaskFailure> {
    match outcome {
        TaskOutcome::Completed(_) => None,
        TaskOutcome::Failed(cause) => Some(TaskFailure { phase, cause }),
    }
}

/// The outputs of the completed tasks, in the order of `outcomes`.
pub open spec fn completed<Y>(outcomes: Seq<TaskOutcome<Y>>) -> Seq<Y> {
    outcomes.filter_map(|outcome: TaskOutcome<Y>| output_of(outcome))
}

/// The failures of the failed tasks of `phase`, in the order of `outcomes`.
pub open spec fn failed<Y>(phase: Phase, outcomes: Seq<TaskOutcome<Y>>) -> Seq<TaskFailure> {
    outcomes.filter_map(|outcome: TaskOutcome<Y>| failure_of(phase, outcome))
}

/// Filtering and mapping a concatenation works on each part by itself.
proof fn lemma_filter_map_add<A, B>(left: Seq<A>, right: Seq<A>, f: spec_fn(A) -> Option<B>)
    ensures
        (left + right).filter_map(f) == left.filter_map(f) + right.filter_map(f),
    decreases right.len(),
{
    if right.len() == 0 {
        assert(left + right == left);
        assert(left.filter_map(f) + right.filter_map(f) == left.filter_map(f));
    } else {
        lemma_filter_map_add(left, right.drop_last(), f);
        assert((left + right).drop_last() == left + right.drop_last());
        assert((left + right).last() == right.last());
        match f(right.last()) {
            Some(b) => {
                assert((left.filter_map(f) + right.drop_last().filter_map(f)) + seq![b]
                    == left.filter_map(f) + (right.drop_last().filter_map(f) + seq![b]));
            },
            None => {},
        }
    }
}

/// Every task is accounted for exactly once, by its output or by its failure.
pub proof fn lemma_every_task_accounted<Y>(phase: Phase, outcomes: Seq<TaskOutcome<Y>>)
    ensures
        completed(outcomes).len() + failed(phase, outcomes).len() == outcomes.len(),
    decreases outcomes.len(),
{
    if outcomes.len() > 0 {
        lemma_every_task_accounted(phase, outcomes.drop_last());
    }
}

/// When every task completes, the outputs are those of all the tasks, in
/// order, and there is no failure.
pub proof fn lemma_all_completed<Y>(phase: Phase, outcomes: Seq<TaskOutcome<Y>>)
    requires
        forall|i: int| 0 <= i < outcomes.len() ==> outcomes[i] is Completed,
    ensures
        completed(outcomes) == outcomes.map_values(|outcome: TaskOutcome<Y>| outcome->Completed_0),
        failed(phase, outcomes) == Seq::<TaskFailure>::empty(),
    decreases outcomes.len(),
{
    let outputs = outcomes.map_values(|outcome: TaskOutcome<Y>| outcome->Completed_0);
    if outcomes.len() == 0 {
        assert(completed(outcomes) == outputs);
    } else {
        let init = outcomes.drop_last();
        lemma_all_completed(phase, init);
        assert(outcomes.last() is Completed);
        assert(completed(outcomes) == outputs);
    }
}

/// A task that fails costs its phase its own output and nothing else: the
/// outputs are those of the phase without that task, and the failures are
/// those of the phase without that task, with its own in its place.
pub proof fn lemma_failure_isolated<Y>(phase: Phase, outcomes: Seq<TaskOutcome<Y>>, failing: int)
    requires
        0 <= failing < outcomes.len(),
        outcomes[failing] is Failed,
    ensures
        completed(outcomes) == completed(outcomes.remove(failing)),
        failed(phase, outcomes) == failed(phase, outcomes.take(failing)).push(
            TaskFailure { phase, cause: outcomes[failing]->Failed_0 },
        ) + failed(phase, outcomes.skip(failing + 1)),
        failed(phase, outcomes.remove(failing)) == failed(phase, outcomes.take(failing)) + failed(
            phase,
            outcomes.skip(failing + 1),
        ),
{
    let before = outcomes.take(failing);
    let alone = seq![outcomes[failing]];
    let after = outcomes.skip(failing + 1);
    let output = |outcome: TaskOutcome<Y>| output_of(outcome);
    let failure = |outcome: TaskOutcome<Y>| failure_of(phase, outcome);
    assert(outcomes == (before + alone) + after);
    assert(outcomes.remove(failing) == before + after);
    Seq::lemma_filter_map_singleton(outcomes[failing], output);
    Seq::lemma_filter_map_singleton(outcomes[failing], failure);
    lemma_filter_map_add(before, alone, output);
    lemma_filter_map_add(before + alone, after, output);
    lemma_filter_map_add(before, after, output);
    lemma_filter_map_add(before, alone, failure);
    lemma_filter_map_add(before + alone, after, failure);
    lemma_filter_map_add(before, after, failure);
}

/// Isolation: when exactly one task fails, the phase still settles. It
/// reports that one failure and keeps the outputs of all the other tasks, in
/// order, as if the failed task had never been launched.
pub proof fn lemma_one_failure_isolated<Y>(
    phase: Phase,
    outcomes: Seq<TaskOutcome<Y>>,
    failing: int,
)
    requires
        0 <= failing < outcomes.len(),
        outcomes[failing] is Failed,
        forall|i: int| 0 <= i < outcomes.len() && i != failing ==> outcomes[i] is Completed,
    ensures
        failed(phase, outcomes) == seq![
            (TaskFailure { phase, cause: outcomes[failing]->Failed_0 }),
        ],
        completed(outcomes) == outcomes.remove(failing).map_values(
            |outcome: TaskOutcome<Y>| outcome->Completed_0,
        ),
        completed(outcomes).len() == outcomes.len() - 1,
{
    lemma_failure_isolated(phase, outcomes, failing);
    lemma_all_completed(phase, outcomes.take(failing));
    lemma_all_completed(phase, outcomes.skip(failing + 1));
    lemma_all_completed(phase, outcomes.remove(failing));
}

/// Settles a phase: every completed task contributes exactly its output,
/// every failed task exactly one failure, and nothing else is kept. No
/// failure stops the fan-in or touches what another task produced.
pub fn fan_in<Y>(phase: Phase, outcomes: Vec<TaskOutcome<Y>>) -> (settled: Settled<Y>)
    ensures
        settled.outputs@ == completed(outcomes@),
        settled.failures@ == failed(phase, outcomes@),
        settled.outputs@.len() + settled.failures@.len() == outcomes@.len(),
{
    let ghost all = outcomes@;
    let mut outputs: Vec<Y> = Vec::new();
    let mut failures: Vec<TaskFailure> = Vec::new();
    for outcome in it: outcomes.into_iter()
        invariant
            it.seq() == all,
            outputs@ == completed(all.take(it.index())),
            failures@ == failed(phase, all.take(it.index())),
    {
        proof {
            let seen = it.index();
            all.lemma_filter_map_take_succ(|o: TaskOutcome<Y>| output_of(o), seen);
            all.lemma_filter_map_take_succ(|o: TaskOutcome<Y>| failure_of(phase, o), seen);
        }
        match outcome {
            TaskOutcome::Completed(output) => outputs.push(output),
            TaskOutcome::Failed(cause) => failures.push(TaskFailure { phase, cause }),
        }
    }
    proof {
        assert(all.take(all.len() as int) == all);
        lemma_every_task_accounted(phase, all);
    }
    Settled { outputs, failures }
}

} // verus!
