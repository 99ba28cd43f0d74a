use std::hash::Hash;
use std::sync::Mutex;

use mapreduce::engine::Framework;
use mapreduce::task_runner::TaskOutcome;
use tokio::runtime::Runtime;
use tokio::task::JoinHandle;

/// Waits until every launched task has reached a terminal state.
async fn settle<Y>(tasks: Vec<JoinHandle<Y>>) -> Vec<TaskOutcome<Y>> {
    let mut outcomes = Vec::with_capacity(tasks.len());
    for task in tasks {
        outcomes.push(TaskOutcome::from_result(task.await.map_err(|e| format!("{e:?}"))));
    }
    outcomes
}

/// Drives one run on the tokio runtime, one task per work item, and gives
/// back the lines that it would log.
async fn run<I, M, K, O, R>(framework: &Framework<I>, mapper: M, reducer: R) -> Vec<String>
where
    I: Send + Clone + 'static,
    M: Fn(I) -> (K, O) + Send + Copy + 'static,
    K: Eq + Hash + Send + 'static,
    R: Fn(K, Vec<O>) + Send + Copy + 'static,
    O: Send + 'static,
{
    let mut log = Vec::new();

    let mut tasks = Vec::new();
    for item in framework.map_tasks() {
        tasks.push(tokio::spawn(async move { mapper(item) }));
    }
    let settled = framework.map(settle(tasks).await);
    for failure in &settled.failures {
        log.push(failure.message());
    }

    let mut tasks = Vec::new();
    for (key, values) in framework.reduce_tasks(settled.outputs) {
        tasks.push(tokio::spawn(async move {
            reducer(key, values);
        }));
    }
    for failure in framework.reduce(settle(tasks).await) {
        log.push(failure.message());
    }
    log
}

/// A place where a reducer, which has to be `Copy`, can leave what it saw.
fn record<T>() -> &'static Mutex<Vec<T>> {
    Box::leak(Box::new(Mutex::new(Vec::new())))
}

fn parity(item: String) -> (bool, i64) {
    let value = item.parse::<i64>().unwrap();
    (value % 2 == 0, value)
}

fn words(text: &str) -> Vec<String> {
    text.split_whitespace().map(|word| word.to_string()).collect()
}

#[test]
fn run_sums_odd_and_even_numbers() {
    let seen = record::<(bool, Vec<i64>, i64)>();
    let framework = Framework::new(words("1 2 3 4"));
    let log = Runtime::new().unwrap().block_on(run(&framework, parity, move |key, values| {
        let sum = values.iter().sum::<i64>();
        seen.lock().unwrap().push((key, values, sum));
    }));
    assert!(log.is_empty());
    let mut seen = seen.lock().unwrap().clone();
    seen.sort();
    assert_eq!(seen, vec![(false, vec![1, 3], 4), (true, vec![2, 4], 6)]);
}

#[test]
fn run_on_an_empty_input_calls_no_reducer() {
    let seen = record::<(bool, Vec<i64>)>();
    let framework = Framework::new(Vec::<String>::new());
    let log = Runtime::new().unwrap().block_on(run(&framework, parity, move |key, values| {
        seen.lock().unwrap().push((key, values));
    }));
    assert!(log.is_empty());
    assert!(seen.lock().unwrap().is_empty());
}

#[test]
fn run_survives_a_map_task_that_panics() {
    let seen = record::<(bool, Vec<i64>)>();
    let framework = Framework::new(words("1 2 three 4 5"));
    let log = Runtime::new().unwrap().block_on(run(&framework, parity, move |key, values| {
        seen.lock().unwrap().push((key, values));
    }));
    assert_eq!(log.len(), 1);
    assert!(log[0].starts_with("Error during map: "));
    assert!(log[0].len() > "Error during map: ".len());
    let mut seen = seen.lock().unwrap().clone();
    seen.sort();
    assert_eq!(seen, vec![(false, vec![1, 5]), (true, vec![2, 4])]);
}

#[test]
fn run_drops_a_key_whose_only_task_panics() {
    let seen = record::<(bool, Vec<i64>)>();
    let framework = Framework::new(words("1 two 3"));
    let log = Runtime::new().unwrap().block_on(run(&framework, parity, move |key, values| {
        seen.lock().unwrap().push((key, values));
    }));
    assert_eq!(log.len(), 1);
    assert!(log[0].starts_with("Error during map: "));
    assert_eq!(*seen.lock().unwrap(), vec![(false, vec![1, 3])]);
}

#[test]
fn run_isolates_one_failure_among_many_map_tasks() {
    let seen = record::<(u64, Vec<u64>)>();
    let framework = Framework::new((0..50u64).collect::<Vec<u64>>());
    let mapper = |item: u64| {
        assert!(item != 17, "item 17 is bad");
        (item % 5, item)
    };
    let log = Runtime::new().unwrap().block_on(run(&framework, mapper, move |key, values| {
        seen.lock().unwrap().push((key, values));
    }));
    assert_eq!(log.len(), 1);
    assert!(log[0].starts_with("Error during map: "));
    let mut seen = seen.lock().unwrap().clone();
    seen.sort();
    let expected: Vec<(u64, Vec<u64>)> = (0..5u64)
        .map(|key| (key, (0..50u64).filter(|i| i % 5 == key && *i != 17).collect()))
        .collect();
    assert_eq!(seen, expected);
    assert_eq!(seen.iter().map(|(_, values)| values.len()).sum::<usize>(), 49);
}

#[test]
fn run_survives_a_reduce_task_that_panics() {
    let seen = record::<(bool, Vec<i64>)>();
    let framework = Framework::new(words("1 2 3 4"));
    let log = Runtime::new().unwrap().block_on(run(&framework, parity, move |key, values| {
        assert!(!key, "no reduction for even numbers");
        seen.lock().unwrap().push((key, values));
    }));
    assert_eq!(log.len(), 1);
    assert!(log[0].starts_with("Error during reduce: "));
    assert_eq!(*seen.lock().unwrap(), vec![(false, vec![1, 3])]);
}

#[test]
fn run_reports_every_failure_of_both_phases() {
    let seen = record::<(bool, Vec<i64>)>();
    let framework = Framework::new(words("a 1 b 2 c"));
    let log = Runtime::new().unwrap().block_on(run(&framework, parity, move |key, values| {
        assert!(key, "no reduction for odd numbers");
        seen.lock().unwrap().push((key, values));
    }));
    assert_eq!(log.len(), 4);
    assert!(log[0].starts_with("Error during map: "));
    assert!(log[1].starts_with("Error during map: "));
    assert!(log[2].starts_with("Error during map: "));
    assert!(log[3].starts_with("Error during reduce: "));
    assert_eq!(*seen.lock().unwrap(), vec![(true, vec![2])]);
}

#[test]
fn run_gives_each_key_to_the_reducer_once() {
    let seen = record::<(u32, Vec<u32>)>();
    let framework = Framework::new((0..500u32).collect::<Vec<u32>>());
    let log = Runtime::new().unwrap().block_on(run(
        &framework,
        |item: u32| (item % 7, item),
        move |key, values| {
            seen.lock().unwrap().push((key, values));
        },
    ));
    assert!(log.is_empty());
    let mut seen = seen.lock().unwrap().clone();
    seen.sort();
    let expected: Vec<(u32, Vec<u32>)> =
        (0..7u32).map(|key| (key, (0..500u32).filter(|i| i % 7 == key).collect())).collect();
    assert_eq!(seen, expected);
}

#[test]
fn concurrent_tasks_touch_only_their_own_copy() {
    let seen = record::<(usize, Vec<u64>)>();
    let input: Vec<Vec<u64>> = (0..300u64).map(|i| (0..i % 9).map(|j| i + j).collect()).collect();
    let mapper = |mut item: Vec<u64>| {
        item.push(1000);
        item.reverse();
        (item.len() % 4, item.iter().sum::<u64>())
    };
    let framework = Framework::new(input.clone());
    let log = Runtime::new().unwrap().block_on(run(&framework, mapper, move |key, mut values| {
        values.push(0);
        seen.lock().unwrap().push((key, values));
    }));
    assert!(log.is_empty());
    assert_eq!(framework.map_tasks(), input);

    let mut expected: Vec<(usize, Vec<u64>)> = (0..4).map(|key| (key, Vec::new())).collect();
    for item in input {
        let (key, value) = mapper(item);
        expected[key].1.push(value);
    }
    for (_, values) in expected.iter_mut() {
        values.push(0);
    }
    let mut seen = seen.lock().unwrap().clone();
    seen.sort();
    assert_eq!(seen, expected);
}

#[test]
fn a_rejected_item_counts_as_a_failed_task() {
    let framework = Framework::new(words("1 2 three 4"));
    let outcomes = Runtime::new().unwrap().block_on(async {
        let mut tasks = Vec::new();
        for item in framework.map_tasks() {
            tasks.push(tokio::spawn(async move {
                match item.parse::<i64>() {
                    Ok(value) => Ok((value % 2 == 0, value)),
                    Err(e) => Err(format!("{item:?}: {e}")),
                }
            }));
        }
        let mut outcomes = Vec::new();
        for task in tasks {
            outcomes.push(match task.await {
                Ok(result) => TaskOutcome::from_result(result),
                Err(e) => TaskOutcome::Failed(format!("{e:?}")),
            });
        }
        outcomes
    });
    let settled = framework.map(outcomes);
    assert_eq!(settled.outputs, vec![(false, 1), (true, 2), (true, 4)]);
    assert_eq!(settled.failures.len(), 1);
    assert_eq!(
        settled.failures[0].message(),
        "Error during map: \"three\": invalid digit found in string"
    );
    let mut tasks = framework.reduce_tasks(settled.outputs);
    tasks.sort();
    assert_eq!(tasks, vec![(false, vec![1]), (true, vec![2, 4])]);
}
