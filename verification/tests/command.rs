use neomake::command::{command_line, exit_code, output_event, Stream};
use neomake::executor::{permits, ExecutionEvent, RunOptions};
use neomake::name_map::NameMap;
use neomake::shell::ShellInvocation;
use neomake::task::Task;

#[test]
fn the_command_follows_the_arguments_of_the_shell() {
    let mut env = NameMap::new();
    env.insert("B".to_string(), "2".to_string());
    env.insert("A".to_string(), "0".to_string());
    env.insert("A".to_string(), "1".to_string());
    let task = Task {
        name: "t".to_string(),
        command: "echo hi > out".to_string(),
        deps: vec![],
        inputs: vec![],
        outputs: vec![],
        env,
    };
    let line = command_line(&task, &ShellInvocation::new("bash", &["-e", "-c"]), "work");
    assert_eq!(line.program, "bash");
    assert_eq!(line.args, ["-e", "-c", "echo hi > out"]);
    assert_eq!(line.cwd, "work");
    assert_eq!(
        line.env,
        [("A".to_string(), "1".to_string()), ("B".to_string(), "2".to_string())]
    );
}

#[test]
fn a_signal_counts_as_minus_one() {
    assert_eq!(exit_code(Some(3)), 3);
    assert_eq!(exit_code(None), -1);
}

#[test]
fn output_becomes_events() {
    assert!(matches!(
        output_event(Stream::Stdout, "t", "x".to_string()),
        ExecutionEvent::Stdout { task, line } if task == "t" && line == "x"
    ));
    assert!(matches!(
        output_event(Stream::Stderr, "t", "y".to_string()),
        ExecutionEvent::Stderr { task, line } if task == "t" && line == "y"
    ));
}

#[test]
fn at_least_one_command_may_run() {
    assert_eq!(permits(0), 1);
    assert_eq!(permits(7), 7);
    let options = RunOptions::new("root".to_string(), 0);
    assert_eq!(options.concurrency, 1);
    assert_eq!(options.project_root, "root");
    assert!(options.use_cache);
}
