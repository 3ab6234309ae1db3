//! Which files of a repository walk the tool looks at: `target/` and `.git/`
//! are pruned, and files are picked by name. Walking the file system (with
//! `.gitignore` honoured) is left to the caller.
use crate::utils::git::path_components;
use crate::utils::text::{str_eq, views};
use vstd::prelude::*;

verus! {

/// Whether the walk descends into or yields the entry at `path`: not when
/// one of its components is `target` or `.git`.
pub open spec fn kept(path: Seq<char>) -> bool {
    let c = path_components(path);
    forall|i: int| 0 <= i < c.len() ==> #[trigger] c[i] != "target"@ && c[i] != ".git"@
}

/// Whether the last component of `path` is `name`.
pub open spec fn named(path: Seq<char>, name: Seq<char>) -> bool {
    let c = path_components(path);
    c.len() > 0 && c.last() == name
}

/// The paths among `paths` that the walk keeps and that are named `name`,
/// in order.
pub open spec fn files_named(paths: Seq<Seq<char>>, name: Seq<char>) -> Seq<Seq<char>>
    decreases paths.len(),
{
    if paths.len() == 0 {
        Seq::empty()
    } else {
        let rest = files_named(paths.drop_last(), name);
        if kept(paths.last()) && named(paths.last(), name) {
            rest.push(paths.last())
        } else {
            rest
        }
    }
}

/// Picking files by name yields exactly the walked entries that the walk
/// keeps and that carry the name, and none twice when the walk yields none
/// twice.
pub proof fn files_named_are_the_kept_named_entries(paths: Seq<Seq<char>>, name: Seq<char>)
    ensures
        forall|p: Seq<char>|
            #[trigger] files_named(paths, name).contains(p) <==> (paths.contains(p) && kept(p)
                && named(p, name)),
        paths.no_duplicates() ==> files_named(paths, name).no_duplicates(),
    decreases paths.len(),
{
    if paths.len() == 0 {
        assert forall|p: Seq<char>|
            !#[trigger] files_named(paths, name).contains(p) && !paths.contains(p) by {}
    } else {
        let init = paths.drop_last();
        let l = paths.last();
        let rest = files_named(init, name);
        files_named_are_the_kept_named_entries(init, name);
        assert forall|p: Seq<char>| paths.contains(p) <==> (init.contains(p) || p == l) by {
            if paths.contains(p) {
                let i = choose|i: int| 0 <= i < paths.len() && paths[i] == p;
                if i < paths.len() - 1 {
                    assert(init[i] == p);
                }
            }
            if init.contains(p) {
                let i = choose|i: int| 0 <= i < init.len() && init[i] == p;
                assert(paths[i] == p);
            }
            if p == l {
                assert(paths[paths.len() - 1] == p);
            }
        }
        assert forall|p: Seq<char>|
            #[trigger] files_named(paths, name).contains(p) <==> (paths.contains(p) && kept(p)
                && named(p, name)) by {
            if kept(l) && named(l, name) {
                assert(files_named(paths, name) == rest.push(l));
                if rest.push(l).contains(p) {
                    let i = choose|i: int| 0 <= i < rest.push(l).len() && rest.push(l)[i] == p;
                    if i < rest.len() {
                        assert(rest[i] == p);
                    }
                }
                if rest.contains(p) {
                    let i = choose|i: int| 0 <= i < rest.len() && rest[i] == p;
                    assert(rest.push(l)[i] == p);
                }
                if p == l {
                    assert(rest.push(l)[rest.len() as int] == p);
                }
            } else {
                assert(files_named(paths, name) == rest);
            }
        }
        if paths.no_duplicates() {
            assert(init.no_duplicates()) by {
                assert forall|i: int, j: int|
                    0 <= i < init.len() && 0 <= j < init.len() && i != j implies init[i]
                    != init[j] by {
                    assert(init[i] == paths[i] && init[j] == paths[j]);
                }
            }
            if kept(l) && named(l, name) {
                assert(!rest.contains(l)) by {
                    if init.contains(l) {
                        let i = choose|i: int| 0 <= i < init.len() && init[i] == l;
                        assert(paths[i] == paths[paths.len() - 1]);
                    }
                }
                assert forall|i: int, j: int|
                    0 <= i < rest.push(l).len() && 0 <= j < rest.push(l).len() && i
                        != j implies rest.push(l)[i] != rest.push(l)[j] by {
                    if i < rest.len() {
                        assert(rest.push(l)[i] == rest[i]);
                        assert(rest.contains(rest[i]));
                    }
                    if j < rest.len() {
                        assert(rest.push(l)[j] == rest[j]);
                        assert(rest.contains(rest[j]));
                    }
                }
            }
        }
    }
}

/// Whether a walk keeps the entry at `path` (the walk's entry filter: it
/// prunes `target/` and `.git/`, so a large `target/` is never descended
/// into even when it is not ignored).
pub fn keep_entry(path: &str) -> (r: bool)
    ensures
        r == kept(path@),
{
    let c = crate::utils::git::path_components_of(path);
    let mut i: usize = 0;
    while i < c.len()
        invariant
            i <= c@.len(),
            views(c@) == path_components(path@),
            forall|j: int|
                0 <= j < i ==> #[trigger] views(c@)[j] != "target"@ && views(c@)[j] != ".git"@,
        decreases c@.len() - i,
    {
        if str_eq(c[i].as_str(), "target") || str_eq(c[i].as_str(), ".git") {
            assert(views(c@)[i as int] == c@[i as int]@);
            return false;
        }
        i = i + 1;
    }
    true
}

/// Whether the entry at `path` is named `name`.
fn has_name(path: &str, name: &str) -> (r: bool)
    ensures
        r == named(path@, name@),
{
    let c = crate::utils::git::path_components_of(path);
    if c.len() == 0 {
        return false;
    }
    assert(views(c@).last() == c@[c@.len() - 1]@);
    str_eq(c[c.len() - 1].as_str(), name)
}

/// The paths among the walked entries `paths` that are named `filename`,
/// with pruned ones left out, in walk order.
pub fn find_files_by_name(paths: &Vec<String>, filename: &str) -> (r: Vec<String>)
    ensures
        views(r@) == files_named(views(paths@), filename@),
{
    let mut r: Vec<String> = Vec::new();
    let mut i: usize = 0;
    while i < paths.len()
        invariant
            i <= paths@.len(),
            views(r@) == files_named(views(paths@).take(i as int), filename@),
        decreases paths@.len() - i,
    {
        proof {
            let t = views(paths@).take(i + 1);
            assert(t.drop_last() == views(paths@).take(i as int));
            assert(t.last() == paths@[i as int]@);
        }
        if keep_entry(paths[i].as_str()) && has_name(paths[i].as_str(), filename) {
            let ghost prev = r@;
            r.push(paths[i].clone());
            assert(views(r@) =~= views(prev).push(paths@[i as int]@));
        }
        i = i + 1;
    }
    assert(views(paths@).take(paths@.len() as int) == views(paths@));
    r
}

/// The `Cargo.toml` files among the walked entries of the repository.
pub fn find_all_cargo_tomls(paths: &Vec<String>) -> (r: Vec<String>)
    ensures
        views(r@) == files_named(views(paths@), "Cargo.toml"@),
{
    find_files_by_name(paths, "Cargo.toml")
}

/// The `Cargo.lock` files among the walked entries of the repository.
pub fn find_all_cargo_locks(paths: &Vec<String>) -> (r: Vec<String>)
    ensures
        views(r@) == files_named(views(paths@), "Cargo.lock"@),
{
    find_files_by_name(paths, "Cargo.lock")
}

} // verus!
