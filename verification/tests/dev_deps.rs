use anza_xtask::commands::dev_deps::{
    run, run_check, workspace_members_of, CheckArgs, CommandArgs, DevDepsCommands, DevDepsError,
};

fn args() -> CheckArgs {
    CheckArgs { manifest_path: "Cargo.toml".to_string() }
}

const WORKSPACE: &str = "[workspace]\nmembers = [\"a\", \"b\", \"c\"]\n";

fn read(texts: &[Option<&str>]) -> Vec<Result<Option<String>, String>> {
    texts.iter().map(|t| Ok(t.map(|s| s.to_string()))).collect()
}

#[test]
fn member_paths_are_listed() {
    assert_eq!(
        workspace_members_of("Cargo.toml", "[workspace]\nmembers = [\"a\", 3]\n").unwrap(),
        vec![Some("a".to_string()), None]
    );
    assert_eq!(
        workspace_members_of("Cargo.toml", "[package]\n").unwrap_err().to_string(),
        "No workspace.members found"
    );
    assert_eq!(
        workspace_members_of("Cargo.toml", "[workspace").unwrap_err().to_string(),
        "Failed to parse \"Cargo.toml\""
    );
}

#[test]
fn workspace_dev_dependency_on_member_is_reported() {
    let r = read(&[
        Some("[package]\nname = \"a\"\n"),
        Some("[package]\nname = \"b\"\n\n[dev-dependencies]\na = { workspace = true }\nserde = { workspace = true }\n"),
        Some("[package]\nname = \"c\"\n\n[dev-dependencies.b]\nworkspace = true\n\n[dependencies]\na = { workspace = true }\n"),
    ]);
    let err = run_check(&args(), WORKSPACE, &r).unwrap_err();
    match &err {
        DevDepsError::Issues { lines } => assert_eq!(
            lines,
            &vec![
                "b/Cargo.toml - `a` in dev-dependencies should use path = \"...\"".to_string(),
                "c/Cargo.toml - `b` in dev-dependencies should use path = \"...\"".to_string(),
            ]
        ),
        other => panic!("unexpected error {other:?}"),
    }
    assert_eq!(
        err.to_string(),
        "Found 2 dev-dependencies using 'workspace = true' that should use path"
    );
}

#[test]
fn path_dev_dependencies_pass() {
    let r = read(&[
        Some("[package]\nname = \"a\"\n"),
        Some("[package]\nname = \"b\"\n\n[dev-dependencies]\na = { path = \"../a\" }\nserde = { workspace = true }\n"),
        None,
    ]);
    assert!(run_check(&args(), WORKSPACE, &r).is_ok());
    let command = CommandArgs { command: DevDepsCommands::Check(args()) };
    assert!(run(&command, WORKSPACE, &r).is_ok());
}

#[test]
fn member_problems_stop_the_check() {
    let r = read(&[Some("[package\n")]);
    assert!(matches!(run_check(&args(), WORKSPACE, &r), Err(DevDepsError::MemberParse { .. })));
    let r = vec![Err("permission denied".to_string())];
    assert_eq!(run_check(&args(), WORKSPACE, &r).unwrap_err().to_string(), "permission denied");
    let r = read(&[]);
    assert_eq!(
        run_check(&args(), "[workspace]\nmembers = [1]\n", &r).unwrap_err().to_string(),
        "Member path is not a string"
    );
}

#[test]
fn findings_count_the_flagged_pairs() {
    let r = read(&[
        Some("[package]\nname = \"a\"\n"),
        Some("[package]\nname = \"b\"\n\n[dev-dependencies]\na = { workspace = true }\n"),
        Some("[package]\nname = \"c\"\n\n[dev-dependencies]\na = { workspace = true }\nb = { workspace = true }\n"),
    ]);
    assert_eq!(
        run_check(&args(), WORKSPACE, &r).unwrap_err().to_string(),
        "Found 3 dev-dependencies using 'workspace = true' that should use path"
    );
}

#[test]
fn regular_dependencies_and_outside_crates_pass() {
    let r = read(&[
        Some("[package]\nname = \"a\"\n\n[dependencies]\nb = { workspace = true }\n"),
        Some("[package]\nname = \"b\"\n\n[dev-dependencies]\nserde = { workspace = true }\na = { workspace = false }\n"),
        None,
    ]);
    assert!(run_check(&args(), WORKSPACE, &r).is_ok());
}

#[test]
fn the_first_member_failure_names_its_kind() {
    let r = vec![
        Ok(Some("[package]\nname = \"a\"\n".to_string())),
        Err("permission denied".to_string()),
        Ok(Some("[package\n".to_string())),
    ];
    match run_check(&args(), WORKSPACE, &r) {
        Err(DevDepsError::MemberRead { message }) => assert_eq!(message, "permission denied"),
        other => panic!("expected a read failure, got {:?}", other),
    }
    let r = vec![Ok(Some("[package\n".to_string())), Err("permission denied".to_string())];
    assert!(matches!(run_check(&args(), WORKSPACE, &r), Err(DevDepsError::MemberParse { .. })));
}
