use neomake::config::{
    cache_root_for, line_from_offset, load_toml, project_root_for, resolve_config, root_from_parent, toml_failure,
};

#[test]
fn a_document_is_parsed() {
    let value = load_toml("a.toml", Ok("[tasks.t]\ncommand = \"make\"\n".to_string())).unwrap();
    let command = value.get("tasks").and_then(|t| t.get("t")).and_then(|t| t.get("command"));
    assert_eq!(command.and_then(|c| c.as_str()), Some("make"));
}

#[test]
fn a_syntax_error_is_told_with_its_line() {
    let err = load_toml("dir/a.toml", Ok("[tasks.t]\ncommand = = 1\n".to_string())).unwrap_err();
    assert_eq!(err.path, "dir/a.toml");
    assert_eq!(err.line, Some(2));
    assert!(err.message.starts_with("toml parse error: "), "got: {}", err.message);
    assert!(err.message.len() > "toml parse error: ".len());
}

#[test]
fn an_unreadable_file_is_told_with_its_reason() {
    let err = load_toml("a.toml", Err("permission denied".to_string())).unwrap_err();
    assert_eq!(err.display(), "a.toml: cannot read config: permission denied");
}

#[test]
fn a_toml_failure_names_path_and_line() {
    let err = toml_failure("a.toml", "x\ny\nz", "bad key", Some(4));
    assert_eq!(err.display(), "a.toml:3: toml parse error: bad key");
    let err = toml_failure("a.toml", "x\ny\nz", "bad key", Some(6));
    assert_eq!(err.display(), "a.toml: toml parse error: bad key");
    let err = toml_failure("a.toml", "x", "bad key", None);
    assert_eq!(err.line, None);
}

#[test]
fn lines_are_counted_from_one() {
    let source = "ab\ncd\n";
    assert_eq!(line_from_offset(source, 0), Some(1));
    assert_eq!(line_from_offset(source, 2), Some(1));
    assert_eq!(line_from_offset(source, 3), Some(2));
    assert_eq!(line_from_offset(source, 6), Some(3));
    assert_eq!(line_from_offset(source, 7), None);
    assert_eq!(line_from_offset("", 0), Some(1));
    assert_eq!(line_from_offset("é\nx", 3), Some(2));
    assert_eq!(line_from_offset("é\nx", 4), Some(2));
    assert_eq!(line_from_offset("é\nx", 5), None);
}

#[test]
fn the_project_root_holds_the_configuration() {
    assert_eq!(project_root_for("work/app/neomake.toml"), "work/app");
    assert_eq!(project_root_for("/neomake.toml"), "/");
    assert_eq!(project_root_for("neomake.toml"), ".");
    assert_eq!(project_root_for(""), ".");
    assert_eq!(project_root_for("/"), ".");
    assert_eq!(project_root_for("/work/neomake.toml"), "/work");
    assert_eq!(project_root_for("./neomake.toml"), ".");
    assert_eq!(project_root_for("../neomake.toml"), "..");
    assert_eq!(project_root_for("../app/neomake.toml"), "../app");
    assert_eq!(project_root_for("a.b/c..toml"), "a.b");
    assert_eq!(project_root_for("a/.."), "a");
    assert_eq!(project_root_for(".."), ".");
    assert_eq!(project_root_for("."), ".");
    assert_eq!(project_root_for("a//b.toml"), "a");
    assert_eq!(project_root_for("a/./b.toml"), "a");
    assert_eq!(project_root_for("a/.//./b.toml/./"), "a");
    assert_eq!(project_root_for("a//b/c.toml"), "a//b");
    assert_eq!(project_root_for("x/a:b.toml"), "x");
    assert_eq!(project_root_for("a/b:/c.toml"), "a/b:");
    assert_eq!(project_root_for("C:/a/x.toml"), "C:/a");
    assert_eq!(project_root_for("/./x.toml"), "/");
    assert_eq!(project_root_for("/x.toml/"), "/");
    assert_eq!(project_root_for("/."), ".");
    assert_eq!(project_root_for(".//x.toml"), ".");
    assert_eq!(project_root_for("././x.toml"), ".");
    assert_eq!(project_root_for("./a/x.toml"), "./a");
    assert_eq!(project_root_for("./"), ".");
    assert_eq!(project_root_for("a/../x.toml"), "a/..");
}

#[test]
fn the_cache_lies_below_the_project_root() {
    assert_eq!(cache_root_for(Some("work/neomake.toml")), "work");
    assert_eq!(cache_root_for(Some("neomake.toml")), ".");
    assert_eq!(cache_root_for(None), ".");
}

#[test]
fn an_empty_parent_is_the_current_directory() {
    assert_eq!(root_from_parent(Some("a/b".to_string())), "a/b");
    assert_eq!(root_from_parent(Some(String::new())), ".");
    assert_eq!(root_from_parent(None), ".");
}

#[test]
fn the_configuration_asked_for_is_taken_or_missed() {
    assert_eq!(resolve_config(Some(("x.toml", true)), false, false), Ok("x.toml".to_string()));
    assert_eq!(
        resolve_config(Some(("x.toml", false)), true, true),
        Err("config file not found: x.toml".to_string())
    );
}

#[test]
fn plain_toml_is_preferred() {
    assert_eq!(resolve_config(None, true, true), Ok("neomake.toml".to_string()));
    assert_eq!(resolve_config(None, true, false), Ok("neomake.toml".to_string()));
    assert_eq!(resolve_config(None, false, true), Ok("neomake.tomlx".to_string()));
    assert_eq!(
        resolve_config(None, false, false),
        Err("no configuration file found (looked for `neomake.toml` and `neomake.tomlx`)".to_string())
    );
}
