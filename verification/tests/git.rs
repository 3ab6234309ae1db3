use anza_xtask::utils::git::{changed_paths, git_root_from, repo_relative_path, rev_check};

#[test]
fn test_repo_relative_path() {
    let root = "/repo";

    assert_eq!(repo_relative_path(root, "/repo/dir/Cargo.toml").unwrap(), "dir/Cargo.toml");
    assert_eq!(repo_relative_path(root, "/repo/Cargo.toml").unwrap(), "Cargo.toml");

    let err = repo_relative_path(root, "/elsewhere/Cargo.toml").unwrap_err().to_string();
    assert!(err.contains("is outside /repo"), "{err}");
}

#[test]
fn relative_paths_follow_components() {
    // Components, not characters, must match.
    assert!(repo_relative_path("/repo", "/repository/Cargo.toml").is_err());
    // Repeated and trailing separators and `.` pieces are normalized away.
    assert_eq!(repo_relative_path("/repo/", "/repo//a/./b/").unwrap(), "a/b");
    assert_eq!(repo_relative_path("/repo", "/repo").unwrap(), "");
    assert_eq!(repo_relative_path(".", "./x/y").unwrap(), "x/y");
}

#[test]
fn git_answers_are_read() {
    assert_eq!(git_root_from(true, "/repo\n", "").unwrap(), "/repo");
    assert_eq!(
        git_root_from(false, "", "fatal: not a git repository\n").unwrap_err().to_string(),
        "not in a git repository: fatal: not a git repository"
    );
    assert!(rev_check("HEAD", true, "").is_ok());
    let err = rev_check("no-such-rev", false, "fatal: bad revision\n").unwrap_err().to_string();
    assert_eq!(err, "cannot resolve `no-such-rev`: fatal: bad revision");
}

#[test]
fn changed_paths_split_at_nul() {
    let out = "dir/nested.txt\0kept.txt\0w\u{e9}ird name.txt\0";
    assert_eq!(
        changed_paths("HEAD", true, out, "").unwrap(),
        vec!["dir/nested.txt".to_string(), "kept.txt".to_string(), "w\u{e9}ird name.txt".to_string()]
    );
    assert!(changed_paths("HEAD", true, "", "").unwrap().is_empty());
    let err = changed_paths("no-such-rev", false, "", "bad\n").unwrap_err().to_string();
    assert!(err.contains("failed to diff against no-such-rev"), "{err}");
}

#[test]
fn relative_paths_under_an_empty_root_keep_their_components() {
    assert_eq!(repo_relative_path("", "a//b/").unwrap(), "a/b");
    assert_eq!(repo_relative_path("", "./a").unwrap(), "./a");
    assert_eq!(repo_relative_path("", ".").unwrap(), ".");
}
