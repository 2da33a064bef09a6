use neomake::dag::Dag;
use neomake::error::{ExecError, IoErrorKind};
use neomake::name_map::NameMap;
use neomake::select::select_tasks;
use neomake::task::Task;

fn task(name: &str, deps: &[&str]) -> Task {
    Task {
        name: name.into(),
        command: "true".into(),
        deps: deps.iter().map(|s| s.to_string()).collect(),
        inputs: vec![],
        outputs: vec![],
        env: NameMap::new(),
    }
}

fn sample() -> Dag {
    Dag::build(&[
        task("test", &["build"]),
        task("build", &["gen"]),
        task("docs", &["gen"]),
        task("gen", &[]),
        task("lint", &[]),
    ])
    .unwrap()
}

fn selected(targets: &[&str]) -> Vec<String> {
    let targets: Vec<String> = targets.iter().map(|t| t.to_string()).collect();
    let tasks = select_tasks(&sample(), &targets).unwrap();
    tasks.into_iter().map(|t| t.name).collect()
}

#[test]
fn no_target_selects_every_task() {
    assert_eq!(selected(&[]), ["test", "build", "docs", "gen", "lint"]);
}

#[test]
fn a_target_brings_its_dependencies_in_declaration_order() {
    assert_eq!(selected(&["build"]), ["build", "gen"]);
    assert_eq!(selected(&["test"]), ["test", "build", "gen"]);
    assert_eq!(selected(&["lint", "docs"]), ["docs", "gen", "lint"]);
    assert_eq!(selected(&["gen", "gen"]), ["gen"]);
}

#[test]
fn the_first_unknown_target_is_told() {
    let targets = vec!["build".to_string(), "nope".to_string(), "neither".to_string()];
    match select_tasks(&sample(), &targets).unwrap_err() {
        ExecError::Io { task, source } => {
            assert_eq!(task, "nope");
            assert_eq!(source.kind, IoErrorKind::NotFound);
            assert_eq!(source.message, "no such task `nope`");
        }
        _ => panic!("expected Io"),
    }
}

#[test]
fn a_selection_is_a_graph_again() {
    let targets = vec!["test".to_string(), "docs".to_string()];
    let tasks = select_tasks(&sample(), &targets).unwrap();
    let dag = Dag::build(&tasks).unwrap();
    assert_eq!(dag.topo_order(), ["gen", "build", "docs", "test"]);
}
