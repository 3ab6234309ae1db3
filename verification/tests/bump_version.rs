use anza_xtask::commands::bump_version::{
    bump_manifest, bump_manifests, ManifestBumpError, bump_version, verify_changes, verify_lock_changes, BumpLevel,
};
use anza_xtask::utils::cargo::WorkspaceMembers;
use anza_xtask::utils::ordmap::SortedMap;
use anza_xtask::utils::toml::{parse_document, TomlNode};
use anza_xtask::utils::version::Version;

fn v(s: &str) -> Version {
    Version::parse(s).unwrap()
}

#[test]
fn test_bump_version_major() {
    assert_eq!(bump_version(&BumpLevel::Major, &v("1.0.0")).unwrap(), v("2.0.0"));
    assert_eq!(bump_version(&BumpLevel::Major, &v("1.1.0")).unwrap(), v("2.0.0"));
    assert_eq!(bump_version(&BumpLevel::Major, &v("1.1.1")).unwrap(), v("2.0.0"));
}

#[test]
fn test_bump_version_minor() {
    assert_eq!(bump_version(&BumpLevel::Minor, &v("1.0.0")).unwrap(), v("1.1.0"));
    assert_eq!(bump_version(&BumpLevel::Minor, &v("1.2.1")).unwrap(), v("1.3.0"));
}

#[test]
fn test_bump_version_patch() {
    assert_eq!(bump_version(&BumpLevel::Patch, &v("1.0.0")).unwrap(), v("1.0.1"));
}

#[test]
fn test_bump_version_prerelease() {
    assert_eq!(bump_version(&BumpLevel::PreRelease, &v("1.2.3-alpha.0")).unwrap(), v("1.2.3-alpha.1"));
    assert_eq!(bump_version(&BumpLevel::PreRelease, &v("1.2.3-alpha.1")).unwrap(), v("1.2.3-alpha.2"));
    assert_eq!(bump_version(&BumpLevel::PreRelease, &v("1.2.3-beta.0")).unwrap(), v("1.2.3-beta.1"));
    assert_eq!(bump_version(&BumpLevel::PreRelease, &v("1.2.3-rc.0")).unwrap(), v("1.2.3-rc.1"));

    assert_eq!(
        bump_version(&BumpLevel::PreRelease, &v("1.2.3-alpha123")).unwrap_err().to_string(),
        "unexpected prerelease format: alpha123",
    );

    assert_eq!(
        bump_version(&BumpLevel::PreRelease, &v("1.2.3-alpha.custom")).unwrap_err().to_string(),
        "unexpected prerelease format: alpha.custom",
    );
}

#[test]
fn test_bump_version_promote_prerelease() {
    assert_eq!(
        bump_version(&BumpLevel::PromotePreRelease, &v("1.2.3-alpha.0")).unwrap(),
        v("1.2.3-beta.0")
    );
    assert_eq!(
        bump_version(&BumpLevel::PromotePreRelease, &v("1.2.3-alpha.1")).unwrap(),
        v("1.2.3-beta.0")
    );
    assert_eq!(
        bump_version(&BumpLevel::PromotePreRelease, &v("1.2.3-beta.0")).unwrap(),
        v("1.2.3-rc.0")
    );
    assert_eq!(bump_version(&BumpLevel::PromotePreRelease, &v("1.2.3-rc.0")).unwrap(), v("1.2.3"));
    assert_eq!(
        bump_version(&BumpLevel::PromotePreRelease, &v("1.2.3-alpha123")).unwrap_err().to_string(),
        "unexpected prerelease format: alpha123",
    );
    assert_eq!(
        bump_version(&BumpLevel::PromotePreRelease, &v("1.2.3-custom.1")).unwrap_err().to_string(),
        "unexpected prerelease format: custom.1, only alpha, beta, and rc are supported"
    );
}

#[test]
fn test_bump_version_patch_or_prerelease() {
    assert_eq!(
        bump_version(&BumpLevel::PatchOrPreRelease, &v("1.2.3-alpha.0")).unwrap(),
        v("1.2.3-alpha.1")
    );
    assert_eq!(bump_version(&BumpLevel::PatchOrPreRelease, &v("1.2.3")).unwrap(), v("1.2.4"));
}

fn doc(s: &str) -> TomlNode {
    parse_document(s).unwrap()
}

fn intent(pairs: &[(&str, &str, &str)]) -> SortedMap<String, (String, String)> {
    let mut m = SortedMap::new();
    for (p, o, n) in pairs {
        m.insert(p.to_string(), (o.to_string(), n.to_string()));
    }
    m
}

#[test]
fn bump_version_test_verify_changes_ok() {
    let original = doc("[package]\nname = \"foo\"\nversion = \"1.0.0\"\n");
    let modified = doc("[package]\nname = \"foo\"\nversion = \"1.1.0\"\n");
    let intended = intent(&[("package.version", "1.0.0", "1.1.0")]);
    assert!(verify_changes(&original, &modified, &intended, "Cargo.toml").is_ok());
}

#[test]
fn bump_version_test_verify_changes_ignores_formatting() {
    let original = doc("[package]\nname = \"foo\"\nversion = \"1.0.0\"\n");
    let modified = doc("[package]\n# comment\nname   =   \"foo\"\nversion = \"1.0.0\"\n");
    assert!(verify_changes(&original, &modified, &SortedMap::new(), "Cargo.toml").is_ok());
}

#[test]
fn bump_version_test_verify_changes_detects_stray_edit() {
    let original = doc("[package]\nname = \"foo\"\nversion = \"1.0.0\"\n");
    let modified = doc("[package]\nname = \"bar\"\nversion = \"1.1.0\"\n");
    let intended = intent(&[("package.version", "1.0.0", "1.1.0")]);
    let err = verify_changes(&original, &modified, &intended, "Cargo.toml").unwrap_err().to_string();
    assert!(err.contains("unexpected change at `package.name`"), "{err}");
}

#[test]
fn bump_version_test_verify_changes_detects_skipped_bump() {
    let original = doc("[package]\nversion = \"1.0.0\"\n");
    let modified = doc("[package]\nversion = \"1.0.0\"\n");
    let intended = intent(&[("package.version", "1.0.0", "1.1.0")]);
    let err = verify_changes(&original, &modified, &intended, "Cargo.toml").unwrap_err().to_string();
    assert!(err.contains("expected change at `package.version` did not happen"), "{err}");
}

#[test]
fn bump_version_test_verify_changes_detects_wrong_value() {
    let original = doc("[package]\nversion = \"1.0.0\"\n");
    let modified = doc("[package]\nversion = \"2.0.0\"\n");
    let intended = intent(&[("package.version", "1.0.0", "1.1.0")]);
    let err = verify_changes(&original, &modified, &intended, "Cargo.toml").unwrap_err().to_string();
    assert!(err.contains("wrong change at `package.version`"), "{err}");
}

fn lock(packages: &[(&str, &str)]) -> String {
    let mut out = String::from("version = 3\n");
    for (name, version) in packages {
        out.push_str(&format!("\n[[package]]\nname = \"{name}\"\nversion = \"{version}\"\n"));
    }
    out
}

fn crates(names: &[&str]) -> Vec<String> {
    names.iter().map(|s| s.to_string()).collect()
}

#[test]
fn bump_version_test_verify_lock_changes_ok() {
    let before = lock(&[("foo", "1.0.0"), ("serde", "1.0.150")]);
    let after = lock(&[("foo", "1.1.0"), ("serde", "1.0.150")]);
    assert!(verify_lock_changes(&before, &after, &crates(&["foo"]), &v("1.0.0"), &v("1.1.0"), "Cargo.lock")
        .is_ok());
}

#[test]
fn bump_version_test_verify_lock_changes_detects_transitive_jump() {
    let before = lock(&[("foo", "1.0.0"), ("serde", "1.0.150")]);
    let after = lock(&[("foo", "1.1.0"), ("serde", "1.0.200")]);
    let err = verify_lock_changes(&before, &after, &crates(&["foo"]), &v("1.0.0"), &v("1.1.0"), "Cargo.lock")
        .unwrap_err()
        .to_string();
    assert!(err.contains("unexpected package `serde 1.0.200`"), "{err}");
    assert!(err.contains("unexpectedly removed package `serde 1.0.150`"), "{err}");
}

#[test]
fn bump_version_test_verify_lock_changes_detects_new_package() {
    let before = lock(&[("foo", "1.0.0")]);
    let after = lock(&[("foo", "1.1.0"), ("newdep", "0.1.0")]);
    let err = verify_lock_changes(&before, &after, &crates(&["foo"]), &v("1.0.0"), &v("1.1.0"), "Cargo.lock")
        .unwrap_err()
        .to_string();
    assert!(err.contains("unexpected package `newdep 0.1.0`"), "{err}");
}

#[test]
fn bump_version_test_verify_lock_changes_detects_skipped_bump() {
    let before = lock(&[("foo", "1.0.0")]);
    let after = before.clone();
    let err = verify_lock_changes(&before, &after, &crates(&["foo"]), &v("1.0.0"), &v("1.1.0"), "Cargo.lock")
        .unwrap_err()
        .to_string();
    assert!(err.contains("expected `foo` to be bumped to `1.1.0` but it was not"), "{err}");
}

#[test]
fn bump_version_test_verify_lock_changes_ignores_non_workspace_crate() {
    // A crate that shares the old version string but isn't a workspace member
    // must not be touched, and its presence must not be required to change.
    let before = lock(&[("foo", "1.0.0"), ("other", "1.0.0")]);
    let after = lock(&[("foo", "1.1.0"), ("other", "1.0.0")]);
    assert!(verify_lock_changes(&before, &after, &crates(&["foo"]), &v("1.0.0"), &v("1.1.0"), "Cargo.lock")
        .is_ok());
}

// Laws, edge cases and errors on concrete values.

#[test]
fn major_and_minor_bumps_restart_the_prerelease() {
    assert_eq!(bump_version(&BumpLevel::Major, &v("1.2.3-rc.1")).unwrap(), v("2.0.0-alpha.0"));
    assert_eq!(bump_version(&BumpLevel::Minor, &v("1.2.3-beta.4")).unwrap(), v("1.3.0-alpha.0"));
    // A patch bump keeps the pre-release, and build metadata is kept.
    assert_eq!(bump_version(&BumpLevel::Patch, &v("1.2.3-beta.4+b7")).unwrap(), v("1.2.4-beta.4+b7"));
}

#[test]
fn three_promotions_reach_the_release() {
    let mut version = v("3.0.0-alpha.7");
    for _ in 0..3 {
        version = bump_version(&BumpLevel::PromotePreRelease, &version).unwrap();
    }
    assert_eq!(version, v("3.0.0"));
}

#[test]
fn bumps_saturate_at_the_largest_number() {
    let top = v("18446744073709551615.0.0");
    assert_eq!(bump_version(&BumpLevel::Major, &top).unwrap(), top);
    assert_eq!(
        bump_version(&BumpLevel::PreRelease, &v("1.0.0-rc.18446744073709551615")).unwrap(),
        v("1.0.0-rc.18446744073709551615")
    );
}

#[test]
fn prerelease_bump_of_a_release_is_refused() {
    let err = bump_version(&BumpLevel::PreRelease, &v("1.2.3")).unwrap_err();
    assert_eq!(err.to_string(), "unexpected prerelease format: ");
    let err = bump_version(&BumpLevel::PromotePreRelease, &v("1.2.3")).unwrap_err();
    assert_eq!(err.to_string(), "unexpected prerelease format: ");
}

#[test]
fn version_text_round_trips() {
    for text in ["0.1.0", "1.2.3-alpha.0", "1.2.3+build.5", "10.20.30-rc.1+x"] {
        assert_eq!(v(text).to_string(), text);
    }
    assert!(Version::parse("1.2").is_err());
}

fn members(names: &[&str], manifests: &[&str], roots: &[&str]) -> WorkspaceMembers {
    let strings = |v: &[&str]| v.iter().map(|s| s.to_string()).collect::<Vec<_>>();
    WorkspaceMembers { names: strings(names), manifests: strings(manifests), roots: strings(roots) }
}

#[test]
fn bump_manifest_edits_only_the_targets() {
    let content = "[workspace]\nmembers = [\"a\", \"b\"]\n\n[workspace.package]\nversion = \"2.0.1\" # the version\n\n[workspace.dependencies]\na = { path = \"a\", version = \"=2.0.1\" }\nb = { path = \"b\", version = \"=12.0.1\" }\ncc = \"2.0.1\"\n";
    let m = members(&["a", "b"], &[], &["/repo/Cargo.toml"]);
    let bumped = bump_manifest("/repo/Cargo.toml", content, &m, &v("2.0.1"), &v("2.0.2")).unwrap();
    assert!(bumped.contains("a = { path = \"a\", version = \"=2.0.2\" }"), "{bumped}");
    assert!(bumped.contains("b = { path = \"b\", version = \"=12.0.1\" }"), "{bumped}");
    assert!(bumped.contains("cc = \"2.0.1\""), "{bumped}");
    assert!(bumped.contains("[workspace.package]\nversion = \"2.0.2\""), "{bumped}");
}

#[test]
fn bump_manifest_leaves_untargeted_manifest_as_is() {
    let content = "[package]\nname = \"stray\"  # keep\nversion = \"1.2.3\"\n";
    let m = members(&["a"], &["/repo/a/Cargo.toml"], &["/repo/Cargo.toml"]);
    let out = bump_manifest("/repo/stray/Cargo.toml", content, &m, &v("1.2.3"), &v("1.2.4")).unwrap();
    assert_eq!(out, content);
}

#[test]
fn bump_manifest_reports_unparsable_manifest() {
    let m = members(&[], &[], &[]);
    let err = bump_manifest("/repo/Cargo.toml", "[package", &m, &v("1.2.3"), &v("1.2.4")).unwrap_err();
    assert_eq!(err.to_string(), "failed to parse /repo/Cargo.toml");
}

#[test]
fn prerelease_numbers_count_past_nine() {
    assert_eq!(bump_version(&BumpLevel::PreRelease, &v("2.0.0-rc.9")).unwrap(), v("2.0.0-rc.10"));
    assert_eq!(bump_version(&BumpLevel::PatchOrPreRelease, &v("2.0.0-x-y.41")).unwrap(), v("2.0.0-x-y.42"));
}

#[test]
fn single_crate_repository_is_bumped() {
    let content = "[package]\nname = \"solo\"\nversion = \"1.2.3\"\nedition = \"2021\"\n";
    let mut m = WorkspaceMembers::new();
    m.add_unclaimed_root("/repo/Cargo.toml", content).unwrap();
    assert!(m.contains_name("solo") && m.contains_manifest("/repo/Cargo.toml") && m.is_root("/repo/Cargo.toml"));
    let bumped = bump_manifest("/repo/Cargo.toml", content, &m, &v("1.2.3"), &v("1.2.4")).unwrap();
    assert_eq!(bumped, "[package]\nname = \"solo\"\nversion = \"1.2.4\"\nedition = \"2021\"\n");
    let before = lock(&[("solo", "1.2.3")]);
    let after = lock(&[("solo", "1.2.4")]);
    assert!(verify_lock_changes(&before, &after, &m.names, &v("1.2.3"), &v("1.2.4"), "Cargo.lock").is_ok());
    assert!(verify_lock_changes(&before, &before, &m.names, &v("1.2.3"), &v("1.2.4"), "Cargo.lock").is_err());
}

#[test]
fn claimed_root_is_not_added_again() {
    let mut m = members(&["a"], &["/repo/a/Cargo.toml"], &["/repo/Cargo.toml"]);
    m.add_unclaimed_root("/repo/Cargo.toml", "[package]\nname = \"root\"\n").unwrap();
    assert!(!m.contains_name("root"));
    // A root without a package (a virtual workspace) adds nothing either.
    let mut empty = WorkspaceMembers::new();
    empty.add_unclaimed_root("/repo/Cargo.toml", "[workspace]\n").unwrap();
    assert!(empty.names.is_empty() && empty.roots.is_empty());
    assert!(empty.add_unclaimed_root("/repo/Cargo.toml", "[package").is_err());
}

#[test]
fn prerelease_bump_keeps_a_tag_semver_refuses() {
    let odd = Version {
        major: 1,
        minor: 0,
        patch: 0,
        pre: "a_b.1".to_string(),
        build: String::new(),
    };
    assert_eq!(bump_version(&BumpLevel::PreRelease, &odd).unwrap(), odd);
}

#[test]
fn bumping_stops_at_the_first_failure() {
    let mut m = WorkspaceMembers::new();
    m.add_unclaimed_root("/r/Cargo.toml", "[package]\nname = \"solo\"\nversion = \"1.0.0\"\n").unwrap();
    let files = vec![
        ("/r/Cargo.toml".to_string(), Ok("[package]\nname = \"solo\"\nversion = \"1.0.0\"\n".to_string())),
        ("/r/x/Cargo.toml".to_string(), Err("denied".to_string())),
        ("/r/y/Cargo.toml".to_string(), Ok("[package\n".to_string())),
    ];
    let (texts, err) = bump_manifests(&files, &m, &v("1.0.0"), &v("1.0.1"));
    assert_eq!(texts, vec!["[package]\nname = \"solo\"\nversion = \"1.0.1\"\n".to_string()]);
    let err = err.unwrap();
    assert!(matches!(err, ManifestBumpError::Read { .. }));
    assert_eq!(err.to_string(), "failed to read /r/x/Cargo.toml");
}

#[test]
fn bumping_reports_the_reader_message_and_parse_errors() {
    let m = WorkspaceMembers::new();
    let unreadable = vec![("/r/x/Cargo.toml".to_string(), Err("permission denied".to_string()))];
    let (texts, err) = bump_manifests(&unreadable, &m, &v("1.0.0"), &v("1.0.1"));
    assert!(texts.is_empty());
    match err.unwrap() {
        ManifestBumpError::Read { file, message } => {
            assert_eq!(file, "/r/x/Cargo.toml");
            assert_eq!(message, "permission denied");
        }
        other => panic!("expected a read error, got {:?}", other),
    }
    let broken = vec![
        ("/r/a/Cargo.toml".to_string(), Ok("[dependencies]\nx = \"1\"\n".to_string())),
        ("/r/y/Cargo.toml".to_string(), Ok("[package\n".to_string())),
    ];
    let (texts, err) = bump_manifests(&broken, &m, &v("1.0.0"), &v("1.0.1"));
    assert_eq!(texts, vec!["[dependencies]\nx = \"1\"\n".to_string()]);
    let err = err.unwrap();
    assert!(matches!(err, ManifestBumpError::Parse { .. }));
    assert_eq!(err.to_string(), "failed to parse /r/y/Cargo.toml");
}
