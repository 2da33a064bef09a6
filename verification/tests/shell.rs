use neomake::shell::{
    compute, default_for_platform, override_from_env, resolve, Platform, ShellInvocation,
};

#[test]
fn override_parses_argv() {
    let inv = override_from_env(Some("bash -c")).expect("override parsed");
    assert_eq!(inv.program, "bash");
    assert_eq!(inv.args, vec!["-c".to_string()]);
}

#[test]
fn empty_override_is_ignored() {
    assert!(override_from_env(Some("   ")).is_none());
}

#[test]
fn unix_default_is_sh_dash_c() {
    let inv = default_for_platform(Platform::Unix);
    assert_eq!(inv.program, "sh");
    assert_eq!(inv.args, vec!["-c".to_string()]);
}

#[test]
fn windows_default_is_a_known_shell() {
    for pwsh in [false, true] {
        for powershell in [false, true] {
            let inv = default_for_platform(Platform::Windows { pwsh, powershell });
            assert!(matches!(
                inv.program.as_str(),
                "pwsh" | "powershell" | "cmd"
            ));
        }
    }
}

#[test]
fn windows_prefers_the_newer_powershell() {
    let flags = vec!["-NoProfile".to_string(), "-NoLogo".to_string(), "-Command".to_string()];
    for powershell in [false, true] {
        let inv = default_for_platform(Platform::Windows { pwsh: true, powershell });
        assert_eq!(inv.program, "pwsh");
        assert_eq!(inv.args, flags);
    }
    let inv = default_for_platform(Platform::Windows { pwsh: false, powershell: true });
    assert_eq!(inv.program, "powershell");
    assert_eq!(inv.args, flags);
    let inv = default_for_platform(Platform::Windows { pwsh: false, powershell: false });
    assert_eq!(inv.program, "cmd");
    assert_eq!(inv.args, vec!["/S".to_string(), "/C".to_string()]);
}

#[test]
fn override_is_split_at_any_white_space() {
    let inv = override_from_env(Some("\t zsh  -e\u{3000}-c \n")).unwrap();
    assert_eq!(inv.program, "zsh");
    assert_eq!(inv.args, vec!["-e".to_string(), "-c".to_string()]);
    let inv = override_from_env(Some("fish")).unwrap();
    assert_eq!(inv.program, "fish");
    assert!(inv.args.is_empty());
    assert!(override_from_env(Some("")).is_none());
    assert!(override_from_env(None).is_none());
}

#[test]
fn override_wins_over_the_default() {
    let windows = Platform::Windows { pwsh: true, powershell: true };
    assert_eq!(compute(Some("bash -c"), windows).program, "bash");
    assert_eq!(compute(Some(" "), windows).program, "pwsh");
    assert_eq!(compute(None, Platform::Unix).program, "sh");
}

#[test]
fn what_was_resolved_first_is_kept() {
    let mut resolved = None;
    let first = resolve(&mut resolved, Some("bash -c"), Platform::Unix);
    assert_eq!(first.program, "bash");
    let later = resolve(&mut resolved, Some("zsh -c"), Platform::Unix);
    assert_eq!(later.program, "bash");
    assert_eq!(later.args, vec!["-c".to_string()]);
}

#[test]
fn an_invocation_is_built_from_its_parts() {
    let inv = ShellInvocation::new("cmd", &["/S", "/C"]);
    assert_eq!(inv.program, "cmd");
    assert_eq!(inv.args, vec!["/S".to_string(), "/C".to_string()]);
}
