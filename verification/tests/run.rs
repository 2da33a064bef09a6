use std::time::Duration;

use neomake::console::render_event;
use neomake::dag::Dag;
use neomake::executor::{permits, ExecutionEvent, RunReport, TaskOutcome, TaskStatus};
use neomake::name_map::NameMap;
use neomake::plan::{order_outcomes, plan, wiring};
use neomake::run::{Action, Signal, TaskRun};
use neomake::task::Task;

fn mk(name: &str, cmd: &str, deps: &[&str]) -> Task {
    Task {
        name: name.into(),
        command: cmd.into(),
        deps: deps.iter().map(|s| s.to_string()).collect(),
        inputs: vec![],
        outputs: vec![],
        env: NameMap::new(),
    }
}

fn outcome(name: &str, status: TaskStatus, cache_key: Option<&str>) -> TaskOutcome {
    TaskOutcome {
        name: name.to_string(),
        status,
        cache_key: cache_key.map(|k| k.to_string()),
        exit_code: None,
        duration: Duration::ZERO,
        error: None,
    }
}

/// What the world outside a run does.
struct World {
    key: Result<&'static str, &'static str>,
    cached: Vec<String>,
    slot: bool,
    exit: fn(&str) -> Result<i32, String>,
    stored: Vec<String>,
    events: Vec<ExecutionEvent>,
}

fn exits_with_zero(_command: &str) -> Result<i32, String> {
    Ok(0)
}

fn true_or_false(command: &str) -> Result<i32, String> {
    match command {
        "false" => Ok(1),
        "missing" => Err("No such file or directory (os error 2)".to_string()),
        _ => Ok(0),
    }
}

impl World {
    fn new(exit: fn(&str) -> Result<i32, String>) -> World {
        World { key: Ok("k"), cached: vec![], slot: true, exit, stored: vec![], events: vec![] }
    }

    fn drive(&mut self, task: &Task, deps: &[Option<TaskOutcome>], use_cache: bool) -> TaskOutcome {
        let mut run = TaskRun::begin(task.name.clone(), deps.len(), use_cache);
        let mut ticks: u64 = 0;
        loop {
            let signal = match run.action() {
                Action::AwaitDependency(i) => match &deps[i] {
                    Some(o) => Signal::DependencyDone(o.clone()),
                    None => Signal::DependencyLost,
                },
                Action::DeriveKey => match self.key {
                    Ok(k) => Signal::KeyDerived(format!("{k}:{}[{}]", task.name, run.dep_keys().join(","))),
                    Err(e) => Signal::KeyFailed(e.to_string()),
                },
                Action::LookUp(key) => {
                    if self.cached.contains(&key) {
                        Signal::CacheHit
                    } else {
                        Signal::CacheMiss
                    }
                }
                Action::AwaitSlot => {
                    if self.slot {
                        Signal::SlotGranted
                    } else {
                        Signal::SlotRefused
                    }
                }
                Action::RunCommand => match (self.exit)(&task.command) {
                    Ok(code) => Signal::CommandExited(code),
                    Err(e) => Signal::CommandFailed(e),
                },
                Action::Store(key) => {
                    self.stored.push(key);
                    Signal::ResultStored
                }
                Action::Finish(outcome) => return outcome,
            };
            ticks += 1;
            let (next, event) = run.step(signal, Duration::from_secs(ticks));
            run = next;
            self.events.extend(event);
        }
    }

    fn run(&mut self, tasks: &[Task], use_cache: bool) -> RunReport {
        let order = plan(tasks).unwrap().topo_order().to_vec();
        self.run_in_order(tasks, &order, use_cache)
    }

    fn run_in_order(&mut self, tasks: &[Task], order: &[String], use_cache: bool) -> RunReport {
        let dag = plan(tasks).unwrap();
        let waits = wiring(&dag);
        let mut done: Vec<Option<TaskOutcome>> = vec![None; tasks.len()];
        for name in order {
            let i = dag.tasks().iter().position(|t| &t.name == name).unwrap();
            let deps: Vec<Option<TaskOutcome>> = waits[i].iter().map(|&d| done[d].clone()).collect();
            let o = self.drive(&dag.tasks()[i], &deps, use_cache);
            done[i] = Some(o);
        }
        let all: Vec<TaskOutcome> = done.into_iter().flatten().collect();
        order_outcomes(&dag, &all)
    }

    fn lines(&self) -> Vec<String> {
        self.events.iter().filter_map(|e| render_event(e, "0.00", false, false)).collect()
    }
}

#[test]
fn failure_skips_dependents() {
    let tasks = vec![
        mk("a", "false", &[]),
        mk("b", "echo should-not-run", &["a"]),
    ];
    let report = World::new(true_or_false).run(&tasks, true);
    assert_eq!(report.get("a").unwrap().status, TaskStatus::Failed);
    assert_eq!(report.get("b").unwrap().status, TaskStatus::Skipped);
}

#[test]
fn failing_task_skips_dependents() {
    let tasks = vec![mk("bad", "false", &[]), mk("dep", "echo should-not-run", &["bad"])];
    let mut world = World::new(true_or_false);
    let report = world.run(&tasks, true);
    assert!(report.had_failure());
    let s = world.lines().join("\n");
    assert!(s.contains("[FAILED"), "expected a FAILED tag; got: {s}");
    assert!(s.contains("[SKIPPED"), "expected a SKIPPED tag; got: {s}");
}

#[test]
fn a_failure_spreads_to_all_that_depend_on_it_and_to_nothing_else() {
    let tasks = vec![
        mk("a", "false", &[]),
        mk("b", "true", &["a"]),
        mk("c", "true", &["b"]),
        mk("free", "true", &[]),
    ];
    let report = World::new(true_or_false).run(&tasks, true);
    assert_eq!(report.get("b").unwrap().error.as_deref(), Some("upstream `a` failed"));
    assert_eq!(report.get("c").unwrap().status, TaskStatus::Skipped);
    assert_eq!(report.get("c").unwrap().error.as_deref(), Some("upstream `b` failed"));
    assert_eq!(report.get("free").unwrap().status, TaskStatus::Success);
}

#[test]
fn the_report_follows_the_build_order() {
    let tasks = vec![mk("c", "true", &["b"]), mk("b", "true", &["a"]), mk("a", "true", &[])];
    let report = World::new(true_or_false).run(&tasks, true);
    let names: Vec<&str> = report.outcomes.iter().map(|o| o.name.as_str()).collect();
    assert_eq!(names, ["a", "b", "c"]);
    assert!(!report.had_failure());
}

#[test]
fn outcomes_do_not_depend_on_who_finishes_first() {
    let tasks = vec![
        mk("a", "true", &[]),
        mk("b", "false", &[]),
        mk("c", "true", &["a"]),
        mk("d", "true", &["c", "b"]),
    ];
    let first = World::new(true_or_false).run(&tasks, true);
    let order: Vec<String> = ["b", "a", "c", "d"].iter().map(|n| n.to_string()).collect();
    let second = World::new(true_or_false).run_in_order(&tasks, &order, true);
    for (x, y) in first.outcomes.iter().zip(&second.outcomes) {
        assert_eq!(x.name, y.name);
        assert_eq!(x.status, y.status);
        assert_eq!(x.cache_key, y.cache_key);
        assert_eq!(x.error, y.error);
    }
    assert_eq!(second.get("d").unwrap().error.as_deref(), Some("upstream `b` failed"));
}

#[test]
fn keys_of_dependencies_go_into_the_key() {
    let tasks = vec![mk("a", "true", &[]), mk("b", "true", &[]), mk("c", "true", &["b", "a"])];
    let report = World::new(exits_with_zero).run(&tasks, true);
    assert_eq!(report.get("c").unwrap().cache_key.as_deref(), Some("k:c[k:b[],k:a[]]"));
}

#[test]
fn a_success_is_stored_and_reported_with_its_duration() {
    let mut world = World::new(exits_with_zero);
    let o = world.drive(&mk("t", "true", &[]), &[], true);
    assert_eq!(o.name, "t");
    assert_eq!(o.status, TaskStatus::Success);
    assert_eq!(o.cache_key.as_deref(), Some("k:t[]"));
    assert_eq!(o.exit_code, Some(0));
    assert_eq!(o.error, None);
    // key, cache, slot, command, store
    assert_eq!(o.duration, Duration::from_secs(5));
    assert_eq!(world.stored, ["k:t[]"]);
    assert_eq!(world.lines(), ["[RUNNING] t", "[OK     ] t  (0.00s)"]);
}

#[test]
fn a_cached_result_spares_the_command() {
    let mut world = World::new(true_or_false);
    world.cached.push("k:t[]".to_string());
    world.slot = false;
    let o = world.drive(&mk("t", "false", &[]), &[], true);
    assert_eq!(o.status, TaskStatus::Cached);
    assert_eq!(o.exit_code, None);
    // key, cache
    assert_eq!(o.duration, Duration::from_secs(2));
    assert_eq!(o.cache_key.as_deref(), Some("k:t[]"));
    assert!(world.stored.is_empty());
    assert_eq!(world.lines(), ["[CACHED ] t  (key=k:t[]…)"]);
}

#[test]
fn a_repeated_run_is_cached() {
    let tasks = vec![mk("a", "true", &[]), mk("b", "true", &[]), mk("c", "true", &["a", "b"])];
    let mut world = World::new(exits_with_zero);
    let first = world.run(&tasks, true);
    assert!(!first.had_failure());
    assert_eq!(world.stored, ["k:a[]", "k:b[]", "k:c[k:a[],k:b[]]"]);
    world.cached = world.stored.clone();
    world.events.clear();
    let second = world.run(&tasks, true);
    for (x, y) in first.outcomes.iter().zip(&second.outcomes) {
        assert_eq!(y.status, TaskStatus::Cached);
        assert_eq!(x.cache_key, y.cache_key);
    }
    assert_eq!(world.stored.len(), 3);
    assert!(world.lines().iter().all(|line| line.starts_with("[CACHED ] ")));
    assert_eq!(world.lines().len(), 3);
}

#[test]
fn without_the_cache_nothing_is_looked_up_or_stored() {
    let mut world = World::new(exits_with_zero);
    world.cached.push("k:t[]".to_string());
    let o = world.drive(&mk("t", "true", &[]), &[], false);
    assert_eq!(o.status, TaskStatus::Success);
    assert_eq!(o.duration, Duration::from_secs(3));
    assert!(world.stored.is_empty());
    assert_eq!(world.lines(), ["[RUNNING] t", "[OK     ] t  (0.00s)"]);
}

#[test]
fn each_kind_of_failure_has_its_message() {
    let mut world = World::new(true_or_false);
    let o = world.drive(&mk("t", "false", &[]), &[], true);
    assert_eq!(o.status, TaskStatus::Failed);
    assert_eq!(o.exit_code, Some(1));
    assert_eq!(o.error.as_deref(), Some("exit code 1"));
    assert_eq!(o.cache_key.as_deref(), Some("k:t[]"));
    assert_eq!(world.lines(), ["[RUNNING] t", "[FAILED ] t (exit=1)  exit code 1"]);

    let mut world = World::new(true_or_false);
    let o = world.drive(&mk("t", "missing", &[]), &[], true);
    assert_eq!(o.exit_code, None);
    assert_eq!(o.error.as_deref(), Some("No such file or directory (os error 2)"));
    assert_eq!(world.lines()[1], "[FAILED ] t  No such file or directory (os error 2)");

    let mut world = World::new(exits_with_zero);
    world.key = Err("bad glob");
    let o = world.drive(&mk("t", "true", &[]), &[], true);
    assert_eq!(o.status, TaskStatus::Failed);
    assert_eq!(o.cache_key, None);
    assert_eq!(o.error.as_deref(), Some("cache key derivation failed: bad glob"));
    assert_eq!(world.lines(), ["[FAILED ] t  cache key derivation failed: bad glob"]);

    let mut world = World::new(exits_with_zero);
    world.slot = false;
    let o = world.drive(&mk("t", "true", &[]), &[], true);
    assert_eq!(o.status, TaskStatus::Failed);
    assert_eq!(o.error.as_deref(), Some("semaphore closed"));
    assert_eq!(o.cache_key.as_deref(), Some("k:t[]"));
    assert_eq!(world.lines(), ["[RUNNING] t", "[FAILED ] t  semaphore closed"]);
}

#[test]
fn a_lost_dependency_has_the_task_skipped_in_silence() {
    let mut world = World::new(exits_with_zero);
    let o = world.drive(&mk("t", "true", &["a"]), &[None], true);
    assert_eq!(o.status, TaskStatus::Skipped);
    assert_eq!(o.duration, Duration::ZERO);
    assert_eq!(o.error.as_deref(), Some("upstream dep channel closed"));
    assert!(world.events.is_empty());
}

#[test]
fn the_first_dependency_that_failed_is_told() {
    let mut world = World::new(exits_with_zero);
    let deps = vec![
        Some(outcome("a", TaskStatus::Success, Some("ka"))),
        Some(outcome("b", TaskStatus::Skipped, None)),
        Some(outcome("c", TaskStatus::Failed, None)),
    ];
    let o = world.drive(&mk("t", "true", &["a", "b", "c"]), &deps, true);
    assert_eq!(o.error.as_deref(), Some("upstream `b` failed"));
    assert_eq!(o.duration, Duration::ZERO);
    assert_eq!(world.lines(), ["[SKIPPED] t  (upstream `b` failed)"]);
}

#[test]
fn the_wait_for_dependencies_is_not_counted() {
    let mut world = World::new(exits_with_zero);
    let deps = vec![
        Some(outcome("a", TaskStatus::Success, Some("ka"))),
        Some(outcome("b", TaskStatus::Success, Some("kb"))),
        Some(outcome("c", TaskStatus::Success, Some("kc"))),
    ];
    let o = world.drive(&mk("t", "true", &["a", "b", "c"]), &deps, true);
    // Eight steps in all, five of them after the last dependency came in.
    assert_eq!(o.duration, Duration::from_secs(5));

    let run = TaskRun::begin("t".to_string(), 1, true);
    let failed = outcome("a", TaskStatus::Failed, None);
    let (run, _) = run.step(Signal::DependencyDone(failed), Duration::from_secs(5));
    match run.action() {
        Action::Finish(o) => assert_eq!(o.duration, Duration::ZERO),
        _ => panic!("expected Finish"),
    }
}

#[test]
fn a_clock_that_runs_backwards_counts_as_no_time() {
    let run = TaskRun::begin("t".to_string(), 1, false);
    let done = outcome("a", TaskStatus::Success, None);
    let (run, _) = run.step(Signal::DependencyDone(done), Duration::from_secs(9));
    let (run, _) = run.step(Signal::KeyFailed("x".to_string()), Duration::from_secs(7));
    match run.action() {
        Action::Finish(o) => assert_eq!(o.duration, Duration::ZERO),
        _ => panic!("expected Finish"),
    }
}

/// A run in which as many slots are granted as commands may run, first come
/// first served, each held until the task is over.
#[test]
fn no_more_commands_run_than_may() {
    for concurrency in [0_usize, 1, 2, 3, 9] {
        let cap: usize = permits(concurrency);
        let mut runs: Vec<Option<TaskRun>> =
            (0..5).map(|i| Some(TaskRun::begin(format!("t{i}"), 0, true))).collect();
        let mut held: usize = 0;
        let mut most: usize = 0;
        let mut over: usize = 0;
        while over < runs.len() {
            over = 0;
            for slot in runs.iter_mut() {
                let run = slot.take().unwrap();
                let signal = match run.action() {
                    Action::DeriveKey => Signal::KeyDerived("k".to_string()),
                    Action::LookUp(_) => Signal::CacheMiss,
                    Action::AwaitSlot if held < cap => {
                        held += 1;
                        Signal::SlotGranted
                    }
                    Action::RunCommand => Signal::CommandExited(0),
                    Action::Store(_) => Signal::ResultStored,
                    Action::Finish(_) => {
                        over += 1;
                        *slot = Some(run);
                        continue;
                    }
                    _ => {
                        *slot = Some(run);
                        continue;
                    }
                };
                let (next, _) = run.step(signal, Duration::ZERO);
                if matches!(next.action(), Action::Finish(_)) {
                    held -= 1;
                }
                *slot = Some(next);
            }
            let running: usize = runs
                .iter()
                .flatten()
                .filter(|r| matches!(r.action(), Action::RunCommand))
                .count();
            assert!(running <= cap);
            most = most.max(running);
        }
        assert_eq!(most, cap.min(5));
    }
}

#[test]
fn a_dependency_without_a_key_adds_none() {
    let mut world = World::new(exits_with_zero);
    let deps = vec![
        Some(outcome("a", TaskStatus::Success, None)),
        Some(outcome("b", TaskStatus::Cached, Some("kb"))),
    ];
    let o = world.drive(&mk("t", "true", &["a", "b"]), &deps, true);
    assert_eq!(o.cache_key.as_deref(), Some("k:t[kb]"));
}

#[test]
fn a_signal_out_of_turn_changes_nothing() {
    let run = TaskRun::begin("t".to_string(), 0, true);
    let (run, event) = run.step(Signal::CommandExited(0), Duration::ZERO);
    assert!(event.is_none());
    assert!(matches!(run.action(), Action::DeriveKey));
    let (run, event) = run.step(Signal::KeyDerived("k".to_string()), Duration::ZERO);
    assert!(event.is_none());
    assert!(matches!(run.action(), Action::LookUp(_)));
}

#[test]
fn a_plan_that_is_no_graph_is_invalid_data() {
    let err = plan(&[mk("a", "true", &["b"])]).unwrap_err();
    assert_eq!(err.display(), "task `<plan>`: i/o error: task `a` depends on unknown task `b`");
    let err = plan(&[mk("a", "true", &[]), mk("a", "true", &[])]).unwrap_err();
    assert_eq!(err.display(), "task `<plan>`: i/o error: duplicate task definition: `a`");
    let err = plan(&[mk("a", "true", &["a"])]).unwrap_err();
    assert_eq!(err.display(), "task `<plan>`: i/o error: dependency cycle detected: a -> a");
}

#[test]
fn a_failing_runtime_is_told() {
    let err = neomake::plan::runtime_failure("task panicked".to_string());
    assert_eq!(err.display(), "task `<runtime>`: i/o error: task panicked");
}

#[test]
fn tasks_are_wired_to_their_dependencies() {
    let dag = Dag::build(&[mk("c", "x", &["a", "b", "a"]), mk("a", "x", &[]), mk("b", "x", &["a"])]).unwrap();
    assert_eq!(wiring(&dag), vec![vec![1, 2, 1], vec![], vec![1]]);
}

#[test]
fn of_several_outcomes_the_last_counts_and_missing_ones_are_left_out() {
    let dag = Dag::build(&[mk("b", "x", &["a"]), mk("a", "x", &[]), mk("c", "x", &[])]).unwrap();
    let outcomes = vec![
        outcome("b", TaskStatus::Failed, None),
        outcome("stranger", TaskStatus::Success, None),
        outcome("a", TaskStatus::Success, None),
        outcome("b", TaskStatus::Success, None),
    ];
    let report = order_outcomes(&dag, &outcomes);
    assert_eq!(report.outcomes.len(), 2);
    assert_eq!(report.outcomes[0].name, "a");
    assert_eq!(report.outcomes[1].name, "b");
    assert_eq!(report.outcomes[1].status, TaskStatus::Success);
    assert!(report.get("c").is_none());
}
