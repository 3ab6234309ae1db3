use anza_xtask::utils::bump::{bump_targets, bumped_requirement, verify_changes, verify_lock_changes};
use anza_xtask::utils::cargo::WorkspaceMembers;
use anza_xtask::utils::ordmap::SortedMap;
use anza_xtask::utils::toml::{parse_document, TomlNode};
use anza_xtask::utils::version::Version;

fn doc(s: &str) -> TomlNode {
    parse_document(s).unwrap()
}

fn intent(pairs: &[(&str, &str, &str)]) -> SortedMap<String, (String, String)> {
    let mut m = SortedMap::new();
    for (p, o, n) in pairs {
        m.insert(p.to_string(), (o.to_string(), n.to_string()));
    }
    m
}

fn workspace_members(names: &[&str], manifests: &[&str], roots: &[&str]) -> WorkspaceMembers {
    let strings = |v: &[&str]| v.iter().map(|s| s.to_string()).collect::<Vec<_>>();
    WorkspaceMembers { names: strings(names), manifests: strings(manifests), roots: strings(roots) }
}

fn versions() -> (Version, Version) {
    (Version::parse("1.2.3").unwrap(), Version::parse("1.2.4").unwrap())
}

#[test]
fn test_bump_targets_workspace_root() {
    let manifest = "/repo/Cargo.toml";
    let doc = doc("[workspace]\nmembers = [\"a\"]\n\n[workspace.package]\nversion = \"1.2.3\"\n\n[workspace.dependencies]\na = { path = \"a\", version = \"=1.2.3\" }\nbyte-slice-cast = \"=1.2.3\"\n");
    let members = workspace_members(&["a"], &["/repo/a/Cargo.toml"], &["/repo/Cargo.toml"]);
    let (current, new) = versions();

    // The third-party dep shares the version string but is not a member.
    assert_eq!(
        bump_targets(manifest, &doc, &members, &current, &new),
        intent(&[
            ("workspace.package.version", "1.2.3", "1.2.4"),
            ("workspace.dependencies.a.version", "=1.2.3", "=1.2.4"),
        ])
    );
}

#[test]
fn test_bump_targets_leaves_unrelated_pins_alone() {
    let manifest = "/repo/Cargo.toml";
    let doc = doc("[workspace.dependencies]\na = { path = \"a\", version = \"=2.0.1\" }\nb = { path = \"b\", version = \"=12.0.1\" }\n");
    let members = workspace_members(&["a", "b"], &[], &["/repo/Cargo.toml"]);
    let current = Version::parse("2.0.1").unwrap();
    let new = Version::parse("2.0.2").unwrap();

    assert_eq!(
        bump_targets(manifest, &doc, &members, &current, &new),
        intent(&[("workspace.dependencies.a.version", "=2.0.1", "=2.0.2")])
    );
}

#[test]
fn test_bump_targets_member_package() {
    let manifest = "/repo/d/Cargo.toml";
    let doc = doc("[package]\nname = \"d\"\nversion = \"1.2.3\"\n");
    let members = workspace_members(&["d"], &["/repo/d/Cargo.toml"], &["/repo/Cargo.toml"]);
    let (current, new) = versions();

    assert_eq!(
        bump_targets(manifest, &doc, &members, &current, &new),
        intent(&[("package.version", "1.2.3", "1.2.4")])
    );
}

#[test]
fn test_bump_targets_skips_inherited_version() {
    let manifest = "/repo/a/Cargo.toml";
    let doc = doc("[package]\nname = \"a\"\nversion = { workspace = true }\n");
    let members = workspace_members(&["a"], &["/repo/a/Cargo.toml"], &["/repo/Cargo.toml"]);
    let (current, new) = versions();

    assert!(bump_targets(manifest, &doc, &members, &current, &new).is_empty());
}

#[test]
fn test_bump_targets_skips_unclaimed_manifest() {
    let manifest = "/repo/stray/Cargo.toml";
    let doc = doc("[package]\nname = \"stray\"\nversion = \"1.2.3\"\n");
    let members = workspace_members(&["a"], &["/repo/a/Cargo.toml"], &["/repo/Cargo.toml"]);
    let (current, new) = versions();

    assert!(bump_targets(manifest, &doc, &members, &current, &new).is_empty());
}

#[test]
fn test_bump_targets_skips_workspace_fields_of_non_root() {
    let manifest = "/repo/a/Cargo.toml";
    let doc = doc("[workspace.package]\nversion = \"1.2.3\"\n");
    let members = workspace_members(&["a"], &["/repo/a/Cargo.toml"], &["/repo/Cargo.toml"]);
    let (current, new) = versions();

    assert!(bump_targets(manifest, &doc, &members, &current, &new).is_empty());
}

#[test]
fn bump_test_verify_changes_ok() {
    let original = doc("[package]\nname = \"foo\"\nversion = \"1.0.0\"\n");
    let modified = doc("[package]\nname = \"foo\"\nversion = \"1.1.0\"\n");
    let intended = intent(&[("package.version", "1.0.0", "1.1.0")]);
    assert!(verify_changes(&original, &modified, &intended, "Cargo.toml").is_ok());
}

#[test]
fn bump_test_verify_changes_ignores_formatting() {
    let original = doc("[package]\nname = \"foo\"\nversion = \"1.0.0\"\n");
    let modified = doc("[package]\n# comment\nname   =   \"foo\"\nversion = \"1.0.0\"\n");
    assert!(verify_changes(&original, &modified, &SortedMap::new(), "Cargo.toml").is_ok());
}

#[test]
fn bump_test_verify_changes_detects_stray_edit() {
    let original = doc("[package]\nname = \"foo\"\nversion = \"1.0.0\"\n");
    let modified = doc("[package]\nname = \"bar\"\nversion = \"1.1.0\"\n");
    let intended = intent(&[("package.version", "1.0.0", "1.1.0")]);
    let err = verify_changes(&original, &modified, &intended, "Cargo.toml").unwrap_err().to_string();
    assert!(err.contains("unexpected change at `package.name`"), "{err}");
}

#[test]
fn bump_test_verify_changes_detects_skipped_bump() {
    let original = doc("[package]\nversion = \"1.0.0\"\n");
    let modified = doc("[package]\nversion = \"1.0.0\"\n");
    let intended = intent(&[("package.version", "1.0.0", "1.1.0")]);
    let err = verify_changes(&original, &modified, &intended, "Cargo.toml").unwrap_err().to_string();
    assert!(err.contains("expected change at `package.version` did not happen"), "{err}");
}

#[test]
fn bump_test_verify_changes_detects_wrong_value() {
    let original = doc("[package]\nversion = \"1.0.0\"\n");
    let modified = doc("[package]\nversion = \"2.0.0\"\n");
    let intended = intent(&[("package.version", "1.0.0", "1.1.0")]);
    let err = verify_changes(&original, &modified, &intended, "Cargo.toml").unwrap_err().to_string();
    assert!(err.contains("wrong change at `package.version`"), "{err}");
}

fn lock(packages: &[(&str, &str)]) -> String {
    let mut out = String::from("version = 3\n");
    for (name, version) in packages {
        out.push_str(&format!("\n[[package]]\nname = \"{name}\"\nversion = \"{version}\"\n"));
    }
    out
}

fn crates(names: &[&str]) -> Vec<String> {
    names.iter().map(|s| s.to_string()).collect()
}

#[test]
fn bump_test_verify_lock_changes_ok() {
    let before = lock(&[("foo", "1.0.0"), ("serde", "1.0.150")]);
    let after = lock(&[("foo", "1.1.0"), ("serde", "1.0.150")]);
    assert!(verify_lock_changes(
        &before,
        &after,
        &crates(&["foo"]),
        &Version::parse("1.0.0").unwrap(),
        &Version::parse("1.1.0").unwrap(),
        "Cargo.lock",
    )
    .is_ok());
}

#[test]
fn bump_test_verify_lock_changes_detects_transitive_jump() {
    let before = lock(&[("foo", "1.0.0"), ("serde", "1.0.150")]);
    let after = lock(&[("foo", "1.1.0"), ("serde", "1.0.200")]);
    let err = verify_lock_changes(
        &before,
        &after,
        &crates(&["foo"]),
        &Version::parse("1.0.0").unwrap(),
        &Version::parse("1.1.0").unwrap(),
        "Cargo.lock",
    )
    .unwrap_err()
    .to_string();
    assert!(err.contains("unexpected package `serde 1.0.200`"), "{err}");
    assert!(err.contains("missing package `serde 1.0.150` after bump"), "{err}");
}

#[test]
fn bump_test_verify_lock_changes_detects_new_package() {
    let before = lock(&[("foo", "1.0.0")]);
    let after = lock(&[("foo", "1.1.0"), ("newdep", "0.1.0")]);
    let err = verify_lock_changes(
        &before,
        &after,
        &crates(&["foo"]),
        &Version::parse("1.0.0").unwrap(),
        &Version::parse("1.1.0").unwrap(),
        "Cargo.lock",
    )
    .unwrap_err()
    .to_string();
    assert!(err.contains("unexpected package `newdep 0.1.0`"), "{err}");
}

#[test]
fn bump_test_verify_lock_changes_detects_skipped_bump() {
    let before = lock(&[("foo", "1.0.0")]);
    let after = before.clone();
    let err = verify_lock_changes(
        &before,
        &after,
        &crates(&["foo"]),
        &Version::parse("1.0.0").unwrap(),
        &Version::parse("1.1.0").unwrap(),
        "Cargo.lock",
    )
    .unwrap_err()
    .to_string();
    assert!(err.contains("missing package `foo 1.1.0` after bump"), "{err}");
    assert!(err.contains("unexpected package `foo 1.0.0`"), "{err}");
}

#[test]
fn test_verify_lock_changes_detects_moved_dependency_edge() {
    let before = "version = 3\n\n[[package]]\nname = \"foo\"\nversion = \"1.0.0\"\n\n[[package]]\nname = \"tokio\"\nversion = \"1.52.3\"\ndependencies = [\"windows-sys 0.61.0\"]\n\n[[package]]\nname = \"windows-sys\"\nversion = \"0.45.0\"\n\n[[package]]\nname = \"windows-sys\"\nversion = \"0.61.0\"\n";
    let after = "version = 3\n\n[[package]]\nname = \"foo\"\nversion = \"1.1.0\"\n\n[[package]]\nname = \"tokio\"\nversion = \"1.52.3\"\ndependencies = [\"windows-sys 0.45.0\"]\n\n[[package]]\nname = \"windows-sys\"\nversion = \"0.45.0\"\n\n[[package]]\nname = \"windows-sys\"\nversion = \"0.61.0\"\n";
    let err = verify_lock_changes(
        before,
        after,
        &crates(&["foo"]),
        &Version::parse("1.0.0").unwrap(),
        &Version::parse("1.1.0").unwrap(),
        "Cargo.lock",
    )
    .unwrap_err()
    .to_string();
    assert!(err.contains("unexpected change to package `tokio 1.52.3`"), "{err}");
}

#[test]
fn bump_test_verify_lock_changes_ignores_non_workspace_crate() {
    // A crate that shares the old version string but isn't a workspace member
    // must not be touched, and its presence must not be required to change.
    let before = lock(&[("foo", "1.0.0"), ("other", "1.0.0")]);
    let after = lock(&[("foo", "1.1.0"), ("other", "1.0.0")]);
    assert!(verify_lock_changes(
        &before,
        &after,
        &crates(&["foo"]),
        &Version::parse("1.0.0").unwrap(),
        &Version::parse("1.1.0").unwrap(),
        "Cargo.lock",
    )
    .is_ok());
}

#[test]
fn test_bumped_requirement_pins_current() {
    assert_eq!(bumped_requirement("=1.2.3", "1.2.3", "1.2.4"), Some("=1.2.4".to_string()));
    assert_eq!(bumped_requirement("1.2.3", "1.2.3", "1.2.4"), Some("1.2.4".to_string()));
    assert_eq!(bumped_requirement("^1.2.3", "1.2.3", "1.2.4"), Some("^1.2.4".to_string()));
    assert_eq!(bumped_requirement("~1.2.3", "1.2.3", "1.2.4"), Some("~1.2.4".to_string()));
    assert_eq!(bumped_requirement(">=1.2.3", "1.2.3", "1.2.4"), Some(">=1.2.4".to_string()));
}

#[test]
fn test_bumped_requirement_leaves_other_versions_alone() {
    // "12.0.1" contains "2.0.1", so substring matching used to rewrite this
    // into a pin the crate never publishes.
    assert_eq!(bumped_requirement("=12.0.1", "2.0.1", "2.0.2"), None);
    assert_eq!(bumped_requirement("=1.2.30", "1.2.3", "1.2.4"), None);
    assert_eq!(bumped_requirement("=2.0.0", "1.2.3", "1.2.4"), None);
    // A range is not a pin.
    assert_eq!(bumped_requirement(">=1.2.3, <2", "1.2.3", "1.2.4"), None);
}

// Laws and edge cases on concrete values.

#[test]
fn bumped_requirement_round_trips() {
    let there = bumped_requirement(">= 1.2.3", "1.2.3", "1.2.4").unwrap();
    assert_eq!(there, ">= 1.2.4");
    assert_eq!(bumped_requirement(&there, "1.2.4", "1.2.3"), Some(">= 1.2.3".to_string()));
}

#[test]
fn bump_targets_only_pin_members() {
    let manifest = "/repo/Cargo.toml";
    let doc = doc("[workspace.package]\nversion = \"1.2.3\"\n\n[workspace.dependencies]\na = { path = \"a\", version = \"^1.2.3\" }\nb = \"1.2.3\"\nc = { path = \"c\", version = \">=1.2.3, <2\" }\next = { version = \"=1.2.3\" }\n");
    let members = workspace_members(&["a", "b", "c"], &[], &["/repo/Cargo.toml"]);
    let (current, new) = versions();
    // `b` is a plain string (no `version` key), `c` a range, `ext` no member.
    assert_eq!(
        bump_targets(manifest, &doc, &members, &current, &new),
        intent(&[
            ("workspace.dependencies.a.version", "^1.2.3", "^1.2.4"),
            ("workspace.package.version", "1.2.3", "1.2.4"),
        ])
    );
}

#[test]
fn verify_changes_lists_every_finding() {
    let original = doc("[package]\nname = \"foo\"\nversion = \"1.0.0\"\n");
    let modified = doc("[package]\nname = \"bar\"\nversion = \"2.0.0\"\n");
    let intended = intent(&[
        ("package.version", "1.0.0", "1.1.0"),
        ("workspace.package.version", "1.0.0", "1.1.0"),
    ]);
    let err = verify_changes(&original, &modified, &intended, "x/Cargo.toml").unwrap_err().to_string();
    assert_eq!(
        err,
        "version bump touched unexpected content in x/Cargo.toml:\n\
         \x20 unexpected change at `package.name`: \"foo\" -> \"bar\"\n\
         \x20 wrong change at `package.version`: expected (\"1.0.0\", \"1.1.0\"), got (\"1.0.0\", \"2.0.0\")\n\
         \x20 expected change at `workspace.package.version` did not happen"
    );
}

#[test]
fn verify_changes_sees_nested_and_array_leaves() {
    let original = doc("a = [1, { b = 2 }]\n[[t]]\nx = \"y\"\n");
    let modified = doc("a = [1, { b = 3 }]\n[[t]]\nx = \"y\"\n");
    let intended = intent(&[("a[1].b", "2", "3")]);
    assert!(verify_changes(&original, &modified, &intended, "f").is_ok());
    let nothing = SortedMap::new();
    let err = verify_changes(&original, &modified, &nothing, "f").unwrap_err().to_string();
    assert!(err.contains("unexpected change at `a[1].b`"), "{err}");
}

#[test]
fn verify_lock_changes_reports_unparsable_locks() {
    let good = lock(&[("foo", "1.0.0")]);
    let v1 = Version::parse("1.0.0").unwrap();
    let v2 = Version::parse("1.1.0").unwrap();
    let err = verify_lock_changes("[[package", &good, &crates(&["foo"]), &v1, &v2, "L").unwrap_err();
    assert_eq!(err.to_string(), "failed to parse L before bump");
    let err = verify_lock_changes(&good, "[[package", &crates(&["foo"]), &v1, &v2, "L").unwrap_err();
    assert_eq!(err.to_string(), "failed to parse L after bump");
}

#[test]
fn unchanged_lock_without_members_at_current_passes() {
    let before = lock(&[("foo", "0.9.0"), ("serde", "1.0.150")]);
    assert!(verify_lock_changes(
        &before,
        &before,
        &crates(&["foo"]),
        &Version::parse("1.0.0").unwrap(),
        &Version::parse("1.1.0").unwrap(),
        "Cargo.lock",
    )
    .is_ok());
}

#[test]
fn bumped_member_keeps_its_entry() {
    let before = "version = 3\n\n[[package]]\nname = \"foo\"\nversion = \"1.0.0\"\ndependencies = [\"serde\"]\n\n[[package]]\nname = \"serde\"\nversion = \"1.0.150\"\nsource = \"registry+https://github.com/rust-lang/crates.io-index\"\nchecksum = \"abc\"\n";
    let after = "version = 3\n\n[[package]]\nname = \"serde\"\nversion = \"1.0.150\"\nchecksum = \"abc\"\nsource = \"registry+https://github.com/rust-lang/crates.io-index\"\n\n[[package]]\nname = \"foo\"\nversion = \"1.1.0\"\ndependencies = [\"serde\"]\n";
    let v1 = Version::parse("1.0.0").unwrap();
    let v2 = Version::parse("1.1.0").unwrap();
    assert!(verify_lock_changes(before, after, &crates(&["foo"]), &v1, &v2, "Cargo.lock").is_ok());

    let edited = after.replace("checksum = \"abc\"", "checksum = \"abd\"");
    let err = verify_lock_changes(before, &edited, &crates(&["foo"]), &v1, &v2, "Cargo.lock")
        .unwrap_err()
        .to_string();
    assert_eq!(
        err,
        "version bump touched unexpected content in Cargo.lock:\n  unexpected change to package `serde 1.0.150`"
    );
}

#[test]
fn targets_read_their_old_text_from_the_leaves() {
    let doc = doc("[workspace.package]\nversion = \"1.2.3\"\n\n[workspace.dependencies]\na = { path = \"a\", version = \"~1.2.3\" }\n");
    let members = workspace_members(&["a"], &[], &["/repo/Cargo.toml"]);
    let (current, new) = versions();
    let targets = bump_targets("/repo/Cargo.toml", &doc, &members, &current, &new);
    let leaves = anza_xtask::utils::bump::flatten_leaves(&doc);
    assert_eq!(targets.len(), 2);
    for i in 0..targets.len() {
        let (key, (old, _)) = targets.entry(i);
        assert_eq!(leaves.get(key), Some(old));
    }
}

#[test]
fn targets_read_their_leaves_beside_a_shared_path_elsewhere() {
    let doc = doc("\"x.y\" = \"1\"\n\n[x]\ny = \"2\"\n\n[workspace.package]\nversion = \"1.2.3\"\n");
    let members = workspace_members(&[], &[], &["/repo/Cargo.toml"]);
    let (current, new) = versions();
    let targets = bump_targets("/repo/Cargo.toml", &doc, &members, &current, &new);
    let leaves = anza_xtask::utils::bump::flatten_leaves(&doc);
    assert_eq!(targets.len(), 1);
    let (key, (old, _)) = targets.entry(0);
    assert_eq!(key, "workspace.package.version");
    assert_eq!(leaves.get(key), Some(old));
}
