use std::time::Duration;

use neomake::cli::{Cli, Command};
use neomake::console::{
    cache_cleaned, cache_status, colorize, exit_status, list_tasks, render_event, summary,
};
use neomake::dag::Dag;
use neomake::executor::{ExecutionEvent, RunReport, TaskOutcome, TaskStatus};
use neomake::name_map::NameMap;
use neomake::task::Task;

fn task(name: &str, deps: &[&str]) -> Task {
    Task {
        name: name.into(),
        command: "true".into(),
        deps: deps.iter().map(|s| s.to_string()).collect(),
        inputs: vec![],
        outputs: vec![],
        env: NameMap::new(),
    }
}

fn report(statuses: &[TaskStatus]) -> RunReport {
    let outcomes = statuses
        .iter()
        .map(|status| TaskOutcome {
            name: "t".to_string(),
            status: *status,
            cache_key: None,
            exit_code: None,
            duration: Duration::ZERO,
            error: None,
        })
        .collect();
    RunReport { outcomes }
}

fn shown(event: ExecutionEvent) -> Option<String> {
    render_event(&event, "1.50", false, false)
}

#[test]
fn every_color_has_its_code() {
    assert_eq!(colorize(true, "red", "x"), "\x1b[31mx\x1b[0m");
    assert_eq!(colorize(true, "green", "x"), "\x1b[32mx\x1b[0m");
    assert_eq!(colorize(true, "yellow", "x"), "\x1b[33mx\x1b[0m");
    assert_eq!(colorize(true, "cyan", "x"), "\x1b[36mx\x1b[0m");
    assert_eq!(colorize(true, "magenta", "x"), "\x1b[35mx\x1b[0m");
    assert_eq!(colorize(true, "mauve", "x"), "x");
    assert_eq!(colorize(false, "red", "x"), "x");
}

#[test]
fn every_event_has_its_line() {
    let t = || "t".to_string();
    assert_eq!(shown(ExecutionEvent::Started { task: t() }).unwrap(), "[RUNNING] t");
    assert_eq!(
        shown(ExecutionEvent::Cached { task: t(), key: "0123456789abcdef".to_string() }).unwrap(),
        "[CACHED ] t  (key=0123456789ab…)"
    );
    assert_eq!(
        shown(ExecutionEvent::Cached { task: t(), key: "ééé".to_string() }).unwrap(),
        "[CACHED ] t  (key=ééé…)"
    );
    assert_eq!(
        shown(ExecutionEvent::Finished { task: t(), duration: Duration::from_millis(1500) }).unwrap(),
        "[OK     ] t  (1.50s)"
    );
    assert_eq!(
        shown(ExecutionEvent::Failed { task: t(), exit_code: Some(-1), message: "m".to_string() }).unwrap(),
        "[FAILED ] t (exit=-1)  m"
    );
    assert_eq!(
        shown(ExecutionEvent::Failed { task: t(), exit_code: None, message: "m".to_string() }).unwrap(),
        "[FAILED ] t  m"
    );
    assert_eq!(
        shown(ExecutionEvent::Skipped { task: t(), upstream: "u".to_string() }).unwrap(),
        "[SKIPPED] t  (upstream `u` failed)"
    );
    assert_eq!(
        shown(ExecutionEvent::Stdout { task: t(), line: "hello".to_string() }).unwrap(),
        "    t | hello"
    );
    assert_eq!(
        shown(ExecutionEvent::Stderr { task: t(), line: "oops".to_string() }).unwrap(),
        "    t ! oops"
    );
}

#[test]
fn tags_are_colored() {
    let event = ExecutionEvent::Started { task: "t".to_string() };
    assert_eq!(render_event(&event, "", true, false).unwrap(), "\x1b[36m[RUNNING]\x1b[0m t");
    let event = ExecutionEvent::Skipped { task: "t".to_string(), upstream: "u".to_string() };
    assert!(render_event(&event, "", true, false).unwrap().starts_with("\x1b[35m[SKIPPED]\x1b[0m t"));
}

#[test]
fn quiet_mode_hides_the_output_of_tasks_only() {
    let out = ExecutionEvent::Stdout { task: "t".to_string(), line: "x".to_string() };
    let err = ExecutionEvent::Stderr { task: "t".to_string(), line: "x".to_string() };
    let started = ExecutionEvent::Started { task: "t".to_string() };
    assert!(render_event(&out, "", false, true).is_none());
    assert!(render_event(&err, "", false, true).is_none());
    assert_eq!(render_event(&started, "", false, true), render_event(&started, "", false, false));
}

#[test]
fn the_summary_counts_every_status() {
    let r = report(&[
        TaskStatus::Success,
        TaskStatus::Skipped,
        TaskStatus::Success,
        TaskStatus::Cached,
        TaskStatus::Failed,
        TaskStatus::Success,
        TaskStatus::Skipped,
    ]);
    assert_eq!(summary(&r), "summary: 3 ok, 1 cached, 1 failed, 2 skipped");
    assert_eq!(summary(&report(&[])), "summary: 0 ok, 0 cached, 0 failed, 0 skipped");
}

#[test]
fn the_exit_status_tells_of_failures() {
    assert_eq!(exit_status(&report(&[TaskStatus::Success, TaskStatus::Cached])), 0);
    assert_eq!(exit_status(&report(&[TaskStatus::Success, TaskStatus::Failed])), 1);
    assert_eq!(exit_status(&report(&[TaskStatus::Skipped])), 1);
    assert_eq!(exit_status(&report(&[])), 0);
}

#[test]
fn list_command_prints_topo_order() {
    let dag = Dag::build(&[task("a", &[]), task("b", &[]), task("c", &["a", "b"])]).unwrap();
    let lines = list_tasks("neomake.toml", &dag);
    let s = lines.join("\n");
    let pos_a = s.find("  a").unwrap();
    let pos_b = s.find("  b").unwrap();
    let pos_c = s.find("  c").unwrap();
    assert!(pos_a < pos_c);
    assert!(pos_b < pos_c);
    assert_eq!(
        lines,
        ["tasks in `neomake.toml` (topological order):", "  a", "  b", "  c  (deps: a, b)"]
    );
}

#[test]
fn the_cache_is_described() {
    assert_eq!(cache_cleaned("./.neomake/cache"), "cache cleaned: ./.neomake/cache");
    assert_eq!(
        cache_status(".neomake/cache", 3, 18446744073709551615),
        "cache at .neomake/cache: 3 entries, 18446744073709551615 bytes"
    );
}

#[test]
fn the_arguments_decide_the_options_of_a_run() {
    let mut cli = Cli {
        config: None,
        concurrency: None,
        no_cache: false,
        quiet: false,
        command: Command::Run { tasks: vec![] },
    };
    let options = cli.run_options("root".to_string(), 8);
    assert_eq!(options.concurrency, 8);
    assert_eq!(options.project_root, "root");
    assert!(options.use_cache);
    cli.concurrency = Some(2);
    cli.no_cache = true;
    let options = cli.run_options("root".to_string(), 8);
    assert_eq!(options.concurrency, 2);
    assert!(!options.use_cache);
}
