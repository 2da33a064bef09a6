use neomake::config::load_toml;
use neomake::dag::Dag;
use neomake::error::ConfigError;
use neomake::name_map::NameMap;
use neomake::task_set::{RawConfig, RawTask, TaskSet};

use serde::de::Error;

fn text(value: &toml::Value) -> Result<String, toml::de::Error> {
    match value.as_str() {
        Some(s) => Ok(s.to_string()),
        None => Err(toml::de::Error::custom("expected a string")),
    }
}

fn texts(value: &toml::Value) -> Result<Vec<String>, toml::de::Error> {
    match value.as_array() {
        Some(items) => items.iter().map(text).collect(),
        None => Err(toml::de::Error::custom("expected an array")),
    }
}

fn raw_task(table: &toml::Table) -> Result<RawTask, toml::de::Error> {
    let mut raw = RawTask {
        command: String::new(),
        deps: vec![],
        inputs: vec![],
        outputs: vec![],
        env: NameMap::new(),
    };
    for (key, value) in table {
        match key.as_str() {
            "command" => raw.command = text(value)?,
            "deps" => raw.deps = texts(value)?,
            "inputs" => raw.inputs = texts(value)?,
            "outputs" => raw.outputs = texts(value)?,
            "env" => {
                for (k, v) in value.as_table().unwrap() {
                    raw.env.insert(k.clone(), text(v)?);
                }
            }
            other => {
                let known = &["command", "deps", "inputs", "outputs", "env"];
                return Err(toml::de::Error::unknown_field(other, known));
            }
        }
    }
    if !table.contains_key("command") {
        return Err(toml::de::Error::missing_field("command"));
    }
    Ok(raw)
}

fn decode(value: &toml::Value) -> Result<RawConfig, String> {
    let mut tasks = Vec::new();
    for (key, section) in value.as_table().unwrap() {
        if key != "tasks" {
            return Err(toml::de::Error::unknown_field(key, &["tasks"]).to_string());
        }
        for (name, entry) in section.as_table().unwrap() {
            let raw = raw_task(entry.as_table().unwrap()).map_err(|e| e.to_string())?;
            tasks.push((name.clone(), raw));
        }
    }
    Ok(RawConfig { tasks })
}

fn parse(source: &str) -> Result<TaskSet, ConfigError> {
    let value = load_toml("test.toml", Ok(source.to_string())).unwrap();
    TaskSet::from_value(decode(&value), "test.toml")
}

fn entry(name: &str, command: &str) -> (String, RawTask) {
    let raw = RawTask {
        command: command.to_string(),
        deps: vec![],
        inputs: vec![],
        outputs: vec![],
        env: NameMap::new(),
    };
    (name.to_string(), raw)
}

fn message_for(tasks: Vec<(String, RawTask)>) -> String {
    let err = TaskSet::from_value(Ok(RawConfig { tasks }), "c.toml").unwrap_err();
    assert_eq!(err.path, "c.toml");
    assert_eq!(err.line, None);
    err.message
}

#[test]
fn parses_minimal_task() {
    let set = parse(
        r#"
            [tasks.build]
            command = "cargo build"
            "#,
    )
    .unwrap();
    assert_eq!(set.tasks().len(), 1);
    let t = set.get("build").unwrap();
    assert_eq!(t.command, "cargo build");
    assert!(t.deps.is_empty());
}

#[test]
fn rejects_unknown_task_field() {
    let err = parse(
        r#"
            [tasks.build]
            command = "x"
            mystery = "?"
            "#,
    )
    .unwrap_err();
    assert!(
        err.message.contains("unknown field"),
        "got: {}",
        err.message
    );
}

#[test]
fn rejects_empty_command() {
    let err = parse(
        r#"
            [tasks.build]
            command = ""
            "#,
    )
    .unwrap_err();
    assert!(err.message.contains("empty `command`"));
}

#[test]
fn preserves_env_and_deps() {
    let set = parse(
        r#"
            [tasks.a]
            command = "echo a"

            [tasks.b]
            command = "echo b"
            deps = ["a"]
            inputs = ["src/**/*.rs"]
            outputs = ["out.txt"]
            env = { FOO = "bar", BAZ = "qux" }
            "#,
    )
    .unwrap();
    let b = set.get("b").unwrap();
    assert_eq!(b.deps, vec!["a".to_string()]);
    assert_eq!(b.env.get("FOO"), Some(&"bar".to_string()));
    assert_eq!(b.env.get("BAZ"), Some(&"qux".to_string()));
    assert_eq!(b.inputs, vec!["src/**/*.rs".to_string()]);
    assert_eq!(b.outputs, vec!["out.txt".to_string()]);
}

fn from_file(read: Result<&str, &str>) -> Result<TaskSet, ConfigError> {
    let read = read.map(|s| s.to_string()).map_err(|e| e.to_string());
    TaskSet::from_toml_file("f.toml", read, |value| decode(&value))
}

#[test]
fn a_toml_file_becomes_the_set_of_its_document() {
    let set = from_file(Ok("[tasks.b]\ncommand = \"x\"\n[tasks.a]\ncommand = \"y\"")).unwrap();
    let names: Vec<&str> = set.tasks().iter().map(|t| t.name.as_str()).collect();
    assert_eq!(names, ["b", "a"]);
    let err = from_file(Ok("[tasks.b]\ncommand = \" \"")).unwrap_err();
    assert_eq!(err.display(), "f.toml: task `b` has an empty `command`");
    let err = from_file(Ok("[tasks.b]\ncommand = \"x\"\nmystery = 1")).unwrap_err();
    assert!(err.display().starts_with("f.toml: invalid configuration schema: unknown field `mystery`"));
    let err = from_file(Ok("\n\n= 1")).unwrap_err();
    assert_eq!(err.line, Some(3));
    assert!(err.message.starts_with("toml parse error: "));
    let err = from_file(Err("gone")).unwrap_err();
    assert_eq!(err.display(), "f.toml: cannot read config: gone");
}

#[test]
fn an_undecodable_configuration_is_told_with_its_reason() {
    let err = TaskSet::from_value(Err("missing field `command`".to_string()), "c.tomlx").unwrap_err();
    assert_eq!(err.display(), "c.tomlx: invalid configuration schema: missing field `command`");
}

#[test]
fn tasks_stand_in_configuration_order() {
    let set = parse("[tasks.b]\ncommand = \"x\"\n[tasks.a]\ncommand = \"y\"").unwrap();
    let names: Vec<&str> = set.tasks().iter().map(|t| t.name.as_str()).collect();
    assert_eq!(names, ["b", "a"]);
    let tasks = vec![entry("b", "2"), entry("é", "4"), entry("a", "1"), entry("c", "3")];
    let set = TaskSet::from_value(Ok(RawConfig { tasks }), "c.toml").unwrap();
    let names: Vec<&str> = set.tasks().iter().map(|t| t.name.as_str()).collect();
    assert_eq!(names, ["b", "é", "a", "c"]);
    assert_eq!(set.get("c").unwrap().command, "3");
    assert!(set.get("d").is_none());
}

#[test]
fn each_fault_has_its_message() {
    assert_eq!(
        message_for(vec![entry("a", "1"), entry("b", "2"), entry("a", "3")]),
        "duplicate task definition: `a`"
    );
    assert_eq!(message_for(vec![entry("", "1")]), "task name cannot be empty");
    assert_eq!(message_for(vec![entry("a", " \t\n")]), "task `a` has an empty `command`");
}

#[test]
fn the_first_fault_is_told() {
    assert_eq!(message_for(vec![entry("z", ""), entry("b", " ")]), "task `z` has an empty `command`");
    assert_eq!(message_for(vec![entry("b", ""), entry("b", "x")]), "task `b` has an empty `command`");
    assert_eq!(message_for(vec![entry("b", "x"), entry("b", "")]), "duplicate task definition: `b`");
    assert_eq!(message_for(vec![entry("", ""), entry("", "x")]), "task name cannot be empty");
    assert_eq!(
        message_for(vec![entry("c", "x"), entry("a", "x"), entry("c", "x"), entry("", "x")]),
        "duplicate task definition: `c`"
    );
}

#[test]
fn no_tasks_are_a_valid_set() {
    assert!(parse("").unwrap().tasks().is_empty());
    assert!(TaskSet::default().tasks().is_empty());
}

#[test]
fn cycle_is_reported_with_clear_message() {
    let set = parse(
        r#"
[tasks.a]
command = "true"
deps = ["b"]

[tasks.b]
command = "true"
deps = ["a"]
"#,
    )
    .unwrap();
    let message = Dag::build(set.tasks()).unwrap_err().display();
    assert!(
        message.contains("cycle") || message.contains("Cycle"),
        "expected 'cycle' in stderr; got: {message}"
    );
    assert_eq!(message, "dependency cycle detected: a -> b -> a");
}
