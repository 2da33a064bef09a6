use neomake::dag::Dag;
use neomake::error::DagError;
use neomake::name_map::NameMap;
use neomake::task::Task;

fn task(name: &str, deps: &[&str]) -> Task {
    Task {
        name: name.into(),
        command: "true".into(),
        deps: deps.iter().map(|s| s.to_string()).collect(),
        inputs: vec![],
        outputs: vec![],
        env: NameMap::new(),
    }
}

fn cycle_of(tasks: &[Task]) -> Vec<String> {
    match Dag::build(tasks).unwrap_err() {
        DagError::Cycle { path } => path,
        _ => panic!("expected Cycle"),
    }
}

#[test]
fn topo_orders_diamond() {
    //   a
    //  / \
    // b   c
    //  \ /
    //   d
    let tasks = vec![
        task("a", &[]),
        task("b", &["a"]),
        task("c", &["a"]),
        task("d", &["b", "c"]),
    ];
    let dag = Dag::build(&tasks).unwrap();
    let order = dag.topo_order();
    let pos = |n: &str| order.iter().position(|x| x == n).unwrap();
    assert!(pos("a") < pos("b"));
    assert!(pos("a") < pos("c"));
    assert!(pos("b") < pos("d"));
    assert!(pos("c") < pos("d"));
}

#[test]
fn detects_unknown_dep() {
    let tasks = vec![task("a", &["ghost"])];
    let err = Dag::build(&tasks).unwrap_err();
    match err {
        DagError::UnknownDependency { task, missing } => {
            assert_eq!(task, "a");
            assert_eq!(missing, "ghost");
        }
        _ => panic!("expected UnknownDependency"),
    }
}

#[test]
fn detects_cycle_path() {
    // a -> b -> c -> a
    let tasks = vec![task("a", &["c"]), task("b", &["a"]), task("c", &["b"])];
    let err = Dag::build(&tasks).unwrap_err();
    match err {
        DagError::Cycle { path } => {
            assert!(path.len() >= 2);
            assert_eq!(path.first(), path.last());
            // The cycle members must all be in {a,b,c}.
            for n in &path {
                assert!(["a", "b", "c"].contains(&n.as_str()), "node {n}");
            }
        }
        _ => panic!("expected Cycle"),
    }
}

#[test]
fn detects_self_loop() {
    let tasks = vec![task("a", &["a"])];
    let err = Dag::build(&tasks).unwrap_err();
    assert!(matches!(err, DagError::Cycle { .. }));
}

#[test]
fn no_tasks_make_an_empty_graph() {
    let dag = Dag::build(&[]).unwrap();
    assert!(dag.topo_order().is_empty());
    assert!(dag.tasks().is_empty());
}

#[test]
fn roots_come_in_name_order_and_each_name_releases_its_dependents() {
    let tasks = vec![
        task("z", &[]),
        task("link", &["z", "b"]),
        task("b", &[]),
        task("after_b", &["b"]),
        task("last", &["link", "after_b"]),
    ];
    let dag = Dag::build(&tasks).unwrap();
    assert_eq!(dag.topo_order(), ["b", "z", "after_b", "link", "last"]);
}

#[test]
fn shallow_tasks_come_before_deep_ones() {
    let tasks = vec![
        task("a_deep", &["b_mid"]),
        task("b_mid", &["c_root"]),
        task("c_root", &[]),
        task("z_root", &[]),
        task("y_mid", &["z_root", "c_root"]),
    ];
    let dag = Dag::build(&tasks).unwrap();
    assert_eq!(dag.topo_order(), ["c_root", "z_root", "b_mid", "y_mid", "a_deep"]);
}

#[test]
fn names_are_ordered_by_bytes() {
    let tasks = vec![task("é", &[]), task("z", &[]), task("Z", &[]), task("ab", &[]), task("a", &[])];
    let dag = Dag::build(&tasks).unwrap();
    assert_eq!(dag.topo_order(), ["Z", "a", "ab", "z", "é"]);
}

#[test]
fn a_repeated_dependency_counts_as_often_as_it_is_listed() {
    let tasks = vec![task("a", &[]), task("b", &["a", "a"])];
    let dag = Dag::build(&tasks).unwrap();
    assert_eq!(dag.topo_order(), ["a", "b"]);
    assert_eq!(dag.dependents("a"), ["b", "b"]);
    assert_eq!(dag.deps_of("b"), ["a", "a"]);
}

#[test]
fn dependents_and_dependencies_mirror_each_other() {
    let tasks = vec![task("a", &[]), task("b", &["a"]), task("c", &["a", "b"])];
    let dag = Dag::build(&tasks).unwrap();
    assert_eq!(dag.dependents("a"), ["b", "c"]);
    assert_eq!(dag.dependents("b"), ["c"]);
    assert!(dag.dependents("c").is_empty());
    assert_eq!(dag.deps_of("c"), ["a", "b"]);
    assert!(dag.deps_of("a").is_empty());
    assert!(dag.deps_of("nobody").is_empty());
    assert!(dag.dependents("nobody").is_empty());
}

#[test]
fn tasks_keep_their_declaration_order() {
    let tasks = vec![task("b", &["a"]), task("a", &[])];
    let dag = Dag::build(&tasks).unwrap();
    assert_eq!(dag.tasks(), tasks);
    assert_eq!(dag.topo_order(), ["a", "b"]);
}

#[test]
fn the_first_unknown_dependency_is_told() {
    let tasks = vec![task("a", &[]), task("b", &["a", "x", "y"]), task("c", &["z"])];
    match Dag::build(&tasks).unwrap_err() {
        DagError::UnknownDependency { task, missing } => {
            assert_eq!(task, "b");
            assert_eq!(missing, "x");
        }
        _ => panic!("expected UnknownDependency"),
    }
}

#[test]
fn unknown_dependencies_are_told_before_cycles() {
    let tasks = vec![task("a", &["a"]), task("b", &["ghost"])];
    assert!(matches!(Dag::build(&tasks).unwrap_err(), DagError::UnknownDependency { .. }));
}

#[test]
fn the_cycle_starts_where_the_search_meets_itself() {
    let tasks = vec![task("a", &["c"]), task("b", &["a"]), task("c", &["b"])];
    assert_eq!(cycle_of(&tasks), ["a", "c", "b", "a"]);
    assert_eq!(cycle_of(&[task("a", &["a"])]), ["a", "a"]);
}

#[test]
fn what_leads_to_a_cycle_is_not_part_of_it() {
    let tasks = vec![
        task("a", &["m"]),
        task("m", &["ok", "n"]),
        task("n", &["m"]),
        task("ok", &[]),
    ];
    assert_eq!(cycle_of(&tasks), ["m", "n", "m"]);
}

fn repeated_in(tasks: &[Task]) -> String {
    match Dag::build(tasks).unwrap_err() {
        DagError::DuplicateTask { task } => task,
        _ => panic!("expected DuplicateTask"),
    }
}

#[test]
fn a_name_declared_twice_is_told() {
    assert_eq!(repeated_in(&[task("a", &[]), task("a", &[])]), "a");
    let tasks = vec![task("b", &[]), task("a", &["b"]), task("c", &[]), task("a", &[]), task("b", &[])];
    assert_eq!(repeated_in(&tasks), "a");
}

#[test]
fn a_cycle_through_a_repeated_name_is_told_as_a_cycle() {
    let tasks = vec![task("a", &[]), task("a", &["b"]), task("b", &["a"])];
    assert_eq!(cycle_of(&tasks), ["a", "b", "a"]);
    let tasks = vec![task("a", &["b"]), task("a", &[]), task("b", &["a"])];
    assert_eq!(cycle_of(&tasks), ["a", "b", "a"]);
}
