use anza_xtask::utils::cargo::{
    declares_workspace, get_all_crates, manifest_version, package_name, CrateScanError,
    MetadataPackage, WorkspaceMembers, WorkspaceMetadata,
};

#[test]
fn test_manifest_version() {
    assert_eq!(manifest_version("[workspace.package]\nversion = \"3.1.0\"\n").unwrap(), "3.1.0");

    // A single-crate repository has no workspace section at all.
    assert_eq!(manifest_version("[package]\nname = \"foo\"\nversion = \"0.2.2\"\n").unwrap(), "0.2.2");

    // The workspace version wins when both are present.
    assert_eq!(
        manifest_version(
            "[workspace.package]\nversion = \"3.1.0\"\n\n[package]\nname = \"foo\"\nversion = \"0.2.2\"\n"
        )
        .unwrap(),
        "3.1.0"
    );

    // An inherited version is not a version anyone can bump here.
    assert_eq!(
        manifest_version("[package]\nname = \"foo\"\nversion = { workspace = true }\n")
            .unwrap_err()
            .to_string(),
        "no workspace.package.version or package.version"
    );

    assert!(manifest_version("[package\n").is_err());
}

#[test]
fn declares_workspace_reads_the_section() {
    assert!(declares_workspace("[workspace]\nmembers = [\"foo\"]\n").unwrap());
    assert!(!declares_workspace("[package]\nname = \"foo\"\n").unwrap());
    assert!(declares_workspace("[package\n").is_err());
}

#[test]
fn package_name_is_read() {
    assert_eq!(package_name("[package]\nname = \"foo\"\n").unwrap(), Some("foo".to_string()));
    assert_eq!(package_name("[workspace]\n").unwrap(), None);
    assert_eq!(package_name("[package]\nname = 3\n").unwrap(), None);
}

#[test]
fn all_crates_are_collected_in_order() {
    let read = vec![
        Ok("[workspace]\nmembers = [\"a\"]\n".to_string()),
        Ok("[package]\nname = \"a\"\n".to_string()),
        Ok("[package]\nname = \"b\"\n".to_string()),
    ];
    assert_eq!(get_all_crates(&read).unwrap(), vec!["a".to_string(), "b".to_string()]);

    let read = vec![Ok("[package]\nname = \"a\"\n".to_string()), Err("gone".to_string())];
    assert_eq!(get_all_crates(&read).unwrap_err().to_string(), "gone");
}

fn metadata(root: &str, members: &[&str], packages: &[(&str, &str, &str)]) -> WorkspaceMetadata {
    WorkspaceMetadata {
        workspace_root: root.to_string(),
        workspace_members: members.iter().map(|s| s.to_string()).collect(),
        packages: packages
            .iter()
            .map(|(id, name, path)| MetadataPackage {
                id: id.to_string(),
                name: name.to_string(),
                manifest_path: path.to_string(),
            })
            .collect(),
    }
}

#[test]
fn workspaces_are_added_once() {
    let mut members = WorkspaceMembers::new();
    let mut seen = vec![];
    let md = metadata(
        "/repo",
        &["id-a"],
        &[("id-a", "a", "/repo/a/Cargo.toml"), ("id-x", "x", "/elsewhere/x/Cargo.toml")],
    );
    members.add_workspace(&mut seen, "/repo/Cargo.toml", &md);
    assert!(members.contains_name("a"));
    assert!(!members.contains_name("x"));
    assert!(members.contains_manifest("/repo/a/Cargo.toml"));
    assert!(members.is_root("/repo/Cargo.toml"));
    assert!(!members.is_root("/repo/a/Cargo.toml"));

    // The same workspace found through another manifest adds nothing.
    members.add_workspace(&mut seen, "/repo/a/Cargo.toml", &md);
    assert!(!members.is_root("/repo/a/Cargo.toml"));
    assert_eq!(members.names, vec!["a".to_string()]);
}

#[test]
fn the_first_unreadable_or_unparsable_manifest_names_its_kind() {
    let read = vec![Err("gone".to_string()), Ok("[package\n".to_string())];
    match get_all_crates(&read) {
        Err(CrateScanError::Read { message }) => assert_eq!(message, "gone"),
        other => panic!("expected a read failure, got {:?}", other),
    }
    let read = vec![Ok("[package\n".to_string()), Err("gone".to_string())];
    assert!(matches!(get_all_crates(&read), Err(CrateScanError::Parse(_))));
}

#[test]
fn members_keep_the_order_they_were_found_in() {
    let mut members = WorkspaceMembers::new();
    let mut seen = vec![];
    let first = metadata(
        "/repo",
        &["id-b", "id-a"],
        &[("id-b", "b", "/repo/b/Cargo.toml"), ("id-a", "a", "/repo/a/Cargo.toml")],
    );
    members.add_workspace(&mut seen, "/repo/Cargo.toml", &first);
    let second = metadata(
        "/repo/tools",
        &["id-c", "id-a2"],
        &[("id-c", "c", "/repo/tools/c/Cargo.toml"), ("id-a2", "a", "/repo/tools/a/Cargo.toml")],
    );
    members.add_workspace(&mut seen, "/repo/tools/Cargo.toml", &second);
    assert_eq!(members.names, vec!["b".to_string(), "a".to_string(), "c".to_string()]);
    assert_eq!(
        members.manifests,
        vec![
            "/repo/b/Cargo.toml".to_string(),
            "/repo/a/Cargo.toml".to_string(),
            "/repo/tools/c/Cargo.toml".to_string(),
            "/repo/tools/a/Cargo.toml".to_string(),
        ]
    );
    assert_eq!(members.roots, vec!["/repo/Cargo.toml".to_string(), "/repo/tools/Cargo.toml".to_string()]);
    assert_eq!(seen, vec!["/repo".to_string(), "/repo/tools".to_string()]);
}
