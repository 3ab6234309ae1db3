use anza_xtask::utils::fs::{find_all_cargo_locks, find_all_cargo_tomls, find_files_by_name, keep_entry};

fn paths(v: &[&str]) -> Vec<String> {
    v.iter().map(|s| s.to_string()).collect()
}

#[test]
fn walk_prunes_target_and_git() {
    assert!(keep_entry("/repo/foo/Cargo.toml"));
    assert!(!keep_entry("/repo/target/debug/Cargo.toml"));
    assert!(!keep_entry("/repo/.git"));
    assert!(keep_entry("/repo/targets/Cargo.toml"));
}

#[test]
fn cargo_files_are_picked_by_name() {
    let walked = paths(&[
        "/repo",
        "/repo/Cargo.toml",
        "/repo/Cargo.lock",
        "/repo/foo/Cargo.toml",
        "/repo/foo/Cargo.toml.orig",
        "/repo/target/x/Cargo.toml",
        "/repo/bar/Cargo.lock",
    ]);
    assert_eq!(find_all_cargo_tomls(&walked), paths(&["/repo/Cargo.toml", "/repo/foo/Cargo.toml"]));
    assert_eq!(find_all_cargo_locks(&walked), paths(&["/repo/Cargo.lock", "/repo/bar/Cargo.lock"]));
    assert!(find_files_by_name(&walked, "nothing").is_empty());
}

#[test]
fn picked_files_are_exactly_the_kept_named_entries() {
    let walked = paths(&[
        "/repo/a/Cargo.toml",
        "/repo/.git/Cargo.toml",
        "/repo/b/Cargo.toml",
        "/repo/b/target/Cargo.toml",
        "/repo/c/cargo.toml",
    ]);
    let picked = find_all_cargo_tomls(&walked);
    for p in &walked {
        let expected = keep_entry(p) && p.ends_with("/Cargo.toml");
        assert_eq!(picked.contains(p), expected, "{p}");
    }
    let mut distinct = picked.clone();
    distinct.dedup();
    assert_eq!(distinct.len(), picked.len());
    assert_eq!(picked, paths(&["/repo/a/Cargo.toml", "/repo/b/Cargo.toml"]));
}
