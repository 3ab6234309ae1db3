//! What the tool makes of git's answers: the repository root, whether a
//! revision resolves, the files a diff lists, and paths relative to the
//! root. Running git is left to the caller.
use crate::utils::text::{
    find_char, join_strings, join_with, lemma_find_char, lemma_find_char_first, owned, split_on,
    split_text, str_eq, trim, trim_str, views,
};
use vstd::prelude::*;

verus! {

/// Why a git question got no answer.
#[derive(Debug)]
pub enum GitError {
    /// `git rev-parse --show-toplevel` failed: not in a git repository.
    NotARepository { stderr: String },
    /// A revision does not resolve.
    UnresolvedRev { rev: String, stderr: String },
    /// `git diff` against a revision failed.
    DiffFailed { rev: String, stderr: String },
    /// A path does not lie under the root.
    OutsideRoot { path: String, root: String },
}

impl GitError {
    /// The error's message.
    pub open spec fn message(&self) -> Seq<char> {
        match self {
            GitError::NotARepository { stderr } => "not in a git repository: "@ + stderr@,
            GitError::UnresolvedRev { rev, stderr } => "cannot resolve `"@ + rev@ + "`: "@ + stderr@,
            GitError::DiffFailed { rev, stderr } => "failed to diff against "@ + rev@ + ": "@
                + stderr@,
            GitError::OutsideRoot { path, root } => path@ + " is outside "@ + root@,
        }
    }

    /// The error's message.
    pub fn to_string(&self) -> (r: String)
        ensures
            r@ == self.message(),
    {
        match self {
            GitError::NotARepository { stderr } => {
                let mut r = owned("not in a git repository: ");
                r.append(stderr.as_str());
                r
            },
            GitError::UnresolvedRev { rev, stderr } => {
                let mut r = owned("cannot resolve `");
                r.append(rev.as_str());
                r.append("`: ");
                r.append(stderr.as_str());
                r
            },
            GitError::DiffFailed { rev, stderr } => {
                let mut r = owned("failed to diff against ");
                r.append(rev.as_str());
                r.append(": ");
                r.append(stderr.as_str());
                r
            },
            GitError::OutsideRoot { path, root } => {
                let mut r = path.clone();
                r.append(" is outside ");
                r.append(root.as_str());
                r
            },
        }
    }
}

/// The repository root from `git rev-parse --show-toplevel`: its trimmed
/// output; an error, with git's trimmed stderr, when git failed (outside a
/// repository).
pub fn git_root_from(success: bool, stdout: &str, stderr: &str) -> (r: Result<String, GitError>)
    ensures
        success ==> (r matches Ok(root) && root@ == trim(stdout@)),
        !success ==> (r matches Err(e) && e matches GitError::NotARepository { stderr: s } && s@
            == trim(stderr@)),
{
    if success {
        Ok(trim_str(stdout))
    } else {
        Err(GitError::NotARepository { stderr: trim_str(stderr) })
    }
}

/// Whether `rev` resolved, from `git rev-parse --verify <rev>`.
pub fn rev_check(rev: &str, success: bool, stderr: &str) -> (r: Result<(), GitError>)
    ensures
        success <==> r is Ok,
        r matches Err(e) ==> (e matches GitError::UnresolvedRev { rev: v, stderr: s } && v@ == rev@
            && s@ == trim(stderr@)),
{
    if success {
        Ok(())
    } else {
        Err(GitError::UnresolvedRev { rev: owned(rev), stderr: trim_str(stderr) })
    }
}

/// The pieces of `ps` that are not empty, in order.
pub open spec fn nonempty_parts(ps: Seq<Seq<char>>) -> Seq<Seq<char>>
    decreases ps.len(),
{
    if ps.len() == 0 {
        Seq::empty()
    } else {
        let rest = nonempty_parts(ps.drop_last());
        if ps.last().len() > 0 {
            rest.push(ps.last())
        } else {
            rest
        }
    }
}

/// The files `git diff --name-only -z <rev>` listed: its output split at
/// NUL bytes, empty pieces dropped; an error, with git's trimmed stderr,
/// when git failed.
pub fn changed_paths(rev: &str, success: bool, stdout: &str, stderr: &str) -> (r: Result<
    Vec<String>,
    GitError,
>)
    ensures
        success ==> (r matches Ok(v) && views(v@) == nonempty_parts(split_on(stdout@, '\0'))),
        !success ==> (r matches Err(e) && e matches GitError::DiffFailed { rev: v, stderr: s } && v@
            == rev@ && s@ == trim(stderr@)),
{
    if !success {
        return Err(GitError::DiffFailed { rev: owned(rev), stderr: trim_str(stderr) });
    }
    let pieces = split_text(stdout, '\0');
    let mut r: Vec<String> = Vec::new();
    let mut i: usize = 0;
    while i < pieces.len()
        invariant
            i <= pieces@.len(),
            views(r@) == nonempty_parts(views(pieces@).take(i as int)),
        decreases pieces@.len() - i,
    {
        proof {
            let t = views(pieces@).take(i + 1);
            assert(t.drop_last() == views(pieces@).take(i as int));
            assert(t.last() == pieces@[i as int]@);
        }
        if !pieces[i].as_str().is_empty() {
            let ghost prev = r@;
            r.push(pieces[i].clone());
            assert(views(r@) =~= views(prev).push(pieces@[i as int]@));
        }
        i = i + 1;
    }
    assert(views(pieces@).take(pieces@.len() as int) == views(pieces@));
    Ok(r)
}

// ---------------------------------------------------------------------------
// Paths
// ---------------------------------------------------------------------------

/// Whether a piece between slashes is a named component (not empty, not
/// `.`).
pub open spec fn is_normal_part(p: Seq<char>) -> bool {
    p.len() > 0 && p != "."@
}

/// The named components among the pieces `ps`, in order.
pub open spec fn normal_parts(ps: Seq<Seq<char>>) -> Seq<Seq<char>>
    decreases ps.len(),
{
    if ps.len() == 0 {
        Seq::empty()
    } else {
        let rest = normal_parts(ps.drop_last());
        if is_normal_part(ps.last()) {
            rest.push(ps.last())
        } else {
            rest
        }
    }
}

/// The components of a Unix path, as `Path::components` yields them, each
/// as its text: a root `/` first for an absolute path, a `.` first for a
/// path that starts with `./` or is `.`, then the named pieces between
/// slashes (empty pieces and other `.` pieces are normalized away).
pub open spec fn path_components(s: Seq<char>) -> Seq<Seq<char>> {
    let rest = normal_parts(split_on(s, '/'));
    if s.len() > 0 && s[0] == '/' {
        seq!["/"@] + rest
    } else if s.len() > 0 && s[0] == '.' && (s.len() == 1 || s[1] == '/') {
        seq!["."@] + rest
    } else {
        rest
    }
}

/// `path` relative to `root` with `/` between its components, when the
/// components of `root` begin those of `path` (`Path::strip_prefix`).
pub open spec fn relative_path(root: Seq<char>, path: Seq<char>) -> Option<Seq<char>> {
    let rc = path_components(root);
    let pc = path_components(path);
    if rc.len() <= pc.len() && pc.take(rc.len() as int) == rc {
        Some(join_with(pc.skip(rc.len() as int), "/"@))
    } else {
        None
    }
}

/// The components of the path `s`.
pub fn path_components_of(s: &str) -> (r: Vec<String>)
    ensures
        views(r@) == path_components(s@),
{
    let pieces = split_text(s, '/');
    let mut r: Vec<String> = Vec::new();
    let cs = crate::utils::text::chars_of(s);
    let ghost lead: Seq<Seq<char>>;
    if cs.len() > 0 && cs[0] == '/' {
        r.push(owned("/"));
        proof {
            lead = seq!["/"@];
        }
    } else if cs.len() > 0 && cs[0] == '.' && (cs.len() == 1 || cs[1] == '/') {
        r.push(owned("."));
        proof {
            lead = seq!["."@];
        }
    } else {
        proof {
            lead = Seq::empty();
        }
    }
    assert(views(r@) =~= lead);
    let mut i: usize = 0;
    while i < pieces.len()
        invariant
            i <= pieces@.len(),
            views(r@) == lead + normal_parts(views(pieces@).take(i as int)),
        decreases pieces@.len() - i,
    {
        proof {
            let t = views(pieces@).take(i + 1);
            assert(t.drop_last() == views(pieces@).take(i as int));
            assert(t.last() == pieces@[i as int]@);
        }
        let piece = &pieces[i];
        if !piece.as_str().is_empty() && !str_eq(piece.as_str(), ".") {
            let ghost prev = r@;
            r.push(piece.clone());
            assert(views(r@) =~= views(prev).push(piece@));
        }
        i = i + 1;
    }
    assert(views(pieces@).take(pieces@.len() as int) == views(pieces@));
    r
}

/// `path` relative to `root`, its components joined by `/`.
pub fn repo_relative_path(root: &str, path: &str) -> (r: Result<String, GitError>)
    ensures
        match relative_path(root@, path@) {
            Some(rel) => (r matches Ok(s) && s@ == rel),
            None => (r matches Err(e) && e matches GitError::OutsideRoot { path: p, root: q } && p@
                == path@ && q@ == root@),
        },
{
    let rc = path_components_of(root);
    let pc = path_components_of(path);
    if rc.len() > pc.len() {
        return Err(GitError::OutsideRoot { path: owned(path), root: owned(root) });
    }
    let mut i: usize = 0;
    while i < rc.len()
        invariant
            i <= rc@.len() <= pc@.len(),
            views(rc@) == path_components(root@),
            views(pc@) == path_components(path@),
            forall|j: int| 0 <= j < i ==> rc@[j]@ == pc@[j]@,
        decreases rc@.len() - i,
    {
        if !str_eq(rc[i].as_str(), pc[i].as_str()) {
            proof {
                assert(views(pc@).take(rc@.len() as int)[i as int] != views(rc@)[i as int]);
            }
            return Err(GitError::OutsideRoot { path: owned(path), root: owned(root) });
        }
        i = i + 1;
    }
    proof {
        assert(views(pc@).take(rc@.len() as int) =~= views(rc@));
    }
    let mut rest: Vec<String> = Vec::new();
    let mut j: usize = rc.len();
    while j < pc.len()
        invariant
            rc@.len() <= j <= pc@.len(),
            views(rest@) == views(pc@).subrange(rc@.len() as int, j as int),
        decreases pc@.len() - j,
    {
        let ghost prev = rest@;
        rest.push(pc[j].clone());
        assert(views(rest@) =~= views(prev).push(pc@[j as int]@));
        j = j + 1;
    }
    assert(views(pc@).subrange(rc@.len() as int, pc@.len() as int) == views(pc@).skip(
        rc@.len() as int,
    ));
    Ok(join_strings(&rest, "/"))
}

// ---------------------------------------------------------------------------
// Laws
// ---------------------------------------------------------------------------

proof fn lemma_split_pieces(s: Seq<char>, c: char)
    ensures
        split_on(s, c).len() > 0,
        forall|i: int, j: int|
            0 <= i < split_on(s, c).len() && 0 <= j < split_on(s, c)[i].len() ==> #[trigger] split_on(
                s,
                c,
            )[i][j] != c,
    decreases s.len(),
{
    lemma_find_char(s, c);
    match find_char(s, c) {
        Some(k) => {
            lemma_split_pieces(s.skip(k + 1), c);
            let r = split_on(s, c);
            let rest = split_on(s.skip(k + 1), c);
            assert(r == seq![s.take(k)] + rest);
            assert forall|i: int, j: int| 0 <= i < r.len() && 0 <= j < r[i].len() implies #[trigger] r[i][j]
                != c by {
                if i == 0 {
                    assert(r[0][j] == s[j]);
                } else {
                    assert(r[i] == rest[i - 1]);
                }
            }
        },
        None => {},
    }
}

proof fn lemma_normal_parts(ps: Seq<Seq<char>>)
    ensures
        forall|i: int| 0 <= i < normal_parts(ps).len() ==> is_normal_part(#[trigger] normal_parts(ps)[i]),
        forall|i: int|
            0 <= i < normal_parts(ps).len() ==> exists|j: int| 0 <= j < ps.len() && ps[j] == #[trigger] normal_parts(ps)[i],
        (forall|i: int| 0 <= i < ps.len() ==> is_normal_part(#[trigger] ps[i])) ==> normal_parts(ps) == ps,
    decreases ps.len(),
{
    if ps.len() > 0 {
        let t = ps.drop_last();
        lemma_normal_parts(t);
        let r = normal_parts(ps);
        assert forall|i: int| 0 <= i < r.len() implies exists|j: int| 0 <= j < ps.len() && ps[j] == #[trigger] r[i] by {
            if i < normal_parts(t).len() {
                let j = choose|j: int| 0 <= j < t.len() && t[j] == normal_parts(t)[i];
                assert(ps[j] == t[j]);
            } else {
                assert(ps[ps.len() - 1] == r[i]);
            }
        }
        if forall|i: int| 0 <= i < ps.len() ==> is_normal_part(#[trigger] ps[i]) {
            assert forall|i: int| 0 <= i < t.len() implies is_normal_part(#[trigger] t[i]) by {
                assert(t[i] == ps[i]);
            }
            assert(is_normal_part(ps[ps.len() - 1]));
            assert(r =~= ps);
        }
    } else {
        assert(normal_parts(ps) =~= ps);
    }
}

proof fn lemma_join_front(parts: Seq<Seq<char>>, sep: Seq<char>)
    requires
        parts.len() >= 2,
    ensures
        join_with(parts, sep) == parts[0] + sep + join_with(parts.drop_first(), sep),
    decreases parts.len(),
{
    let t = parts.drop_last();
    if parts.len() == 2 {
        assert(t =~= seq![parts[0]]);
        assert(parts.drop_first() =~= seq![parts[1]]);
        assert(join_with(t, sep) == parts[0]);
        assert(join_with(parts.drop_first(), sep) == parts[1]);
        assert(join_with(parts, sep) == join_with(t, sep) + sep + parts.last());
    } else {
        lemma_join_front(t, sep);
        let d = parts.drop_first();
        assert(t.drop_first() =~= d.drop_last());
        assert(d.last() == parts.last());
        assert(t[0] == parts[0]);
        assert(join_with(d, sep) == join_with(d.drop_last(), sep) + sep + d.last());
        assert(join_with(parts, sep) == join_with(t, sep) + sep + parts.last());
        assert(join_with(parts, sep) =~= parts[0] + sep + join_with(d, sep));
    }
}

proof fn lemma_split_join(parts: Seq<Seq<char>>)
    requires
        parts.len() > 0,
        forall|i: int, j: int| 0 <= i < parts.len() && 0 <= j < parts[i].len() ==> #[trigger] parts[i][j] != '/',
    ensures
        split_on(join_with(parts, "/"@), '/') == parts,
    decreases parts.len(),
{
    reveal_strlit("/");
    let s = join_with(parts, "/"@);
    if parts.len() == 1 {
        lemma_find_char(s, '/');
        assert(s == parts[0]);
        if find_char(s, '/') is Some {
            let k = find_char(s, '/')->Some_0;
            assert(parts[0][k] != '/');
        }
        assert(split_on(s, '/') =~= parts);
    } else {
        lemma_join_front(parts, "/"@);
        let rest = join_with(parts.drop_first(), "/"@);
        let p0 = parts[0];
        let k = p0.len() as int;
        assert(s[k] == '/');
        assert forall|j: int| 0 <= j < k implies s[j] != '/' by {
            assert(s[j] == p0[j]);
        }
        lemma_find_char_first(s, '/', k);
        assert(s.take(k) =~= p0);
        assert(s.skip(k + 1) =~= rest);
        assert forall|i: int, j: int|
            0 <= i < parts.drop_first().len() && 0 <= j < parts.drop_first()[i].len() implies #[trigger] parts.drop_first()[i][j]
                != '/' by {
            assert(parts.drop_first()[i] == parts[i + 1]);
        }
        lemma_split_join(parts.drop_first());
        assert(split_on(s, '/') =~= parts);
    }
}

/// The components of the named parts `parts` joined by `/` are those parts.
proof fn lemma_components_of_join(parts: Seq<Seq<char>>)
    requires
        forall|i: int| 0 <= i < parts.len() ==> is_normal_part(#[trigger] parts[i]),
        forall|i: int, j: int| 0 <= i < parts.len() && 0 <= j < parts[i].len() ==> #[trigger] parts[i][j] != '/',
    ensures
        path_components(join_with(parts, "/"@)) == parts,
{
    reveal_strlit(".");
    let s = join_with(parts, "/"@);
    if parts.len() == 0 {
        assert(s.len() == 0);
        assert(split_on(s, '/') =~= seq![s]) by {
            lemma_find_char(s, '/');
        }
        assert(normal_parts(seq![s]).len() == 0) by {
            assert(seq![s].drop_last() =~= Seq::<Seq<char>>::empty());
            assert(seq![s].last() == s);
            assert(!is_normal_part(s));
            assert(normal_parts(Seq::<Seq<char>>::empty()).len() == 0);
        }
        assert(path_components(s) =~= parts);
    } else {
        lemma_split_join(parts);
        lemma_normal_parts(parts);
        let p0 = parts[0];
        assert(is_normal_part(p0));
        if parts.len() >= 2 {
            lemma_join_front(parts, "/"@);
        }
        assert(s.take(p0.len() as int) =~= p0) by {
            if parts.len() >= 2 {
                assert(s == p0 + "/"@ + join_with(parts.drop_first(), "/"@));
            } else {
                assert(s == p0);
            }
        }
        assert(s[0] == p0[0]);
        assert(p0[0] != '/');
        if p0[0] == '.' {
            if p0.len() == 1 {
                assert(p0 =~= "."@);
            } else {
                assert(s[1] == p0[1]);
                assert(p0[1] != '/');
            }
        }
    }
}

/// A leading `.` piece is no named component.
proof fn lemma_normal_parts_skip_dot(t: Seq<Seq<char>>)
    ensures
        normal_parts(seq!["."@] + t) == normal_parts(t),
    decreases t.len(),
{
    reveal_strlit(".");
    let u = seq!["."@] + t;
    if t.len() == 0 {
        assert(u =~= seq!["."@]);
        assert(u.drop_last() =~= Seq::<Seq<char>>::empty());
        assert(!is_normal_part(u.last()));
        assert(normal_parts(u) == normal_parts(u.drop_last()));
        assert(normal_parts(t) =~= Seq::<Seq<char>>::empty());
    } else {
        lemma_normal_parts_skip_dot(t.drop_last());
        assert(u.drop_last() =~= seq!["."@] + t.drop_last());
        assert(u.last() == t.last());
        assert(normal_parts(u.drop_last()) == normal_parts(t.drop_last()));
    }
}

/// `path` relative to `root` joins back to `path`: the components of `path`
/// are those of `root` followed by those of the relative path, which never
/// starts with `/`. (A root without components leaves an absolute path as
/// it is, `/` and all, so that case is left out.)
pub proof fn relative_path_joins_back(root: Seq<char>, path: Seq<char>)
    requires
        path_components(root).len() > 0 || path.len() == 0 || path[0] != '/',
        relative_path(root, path) is Some,
    ensures
        path_components(path) == path_components(root) + path_components(
            relative_path(root, path)->Some_0,
        ),
        relative_path(root, path)->Some_0.len() == 0 || relative_path(root, path)->Some_0[0] != '/',
{
    let rc = path_components(root);
    let pc = path_components(path);
    let rest = pc.skip(rc.len() as int);
    let ps = split_on(path, '/');
    lemma_split_pieces(path, '/');
    lemma_normal_parts(ps);
    let np = normal_parts(ps);
    if rc.len() == 0 && pc.len() != np.len() {
        // The path starts with a `.` component, which the relative path keeps.
        reveal_strlit(".");
        reveal_strlit("/");
        assert(pc == seq!["."@] + np);
        assert(rest =~= pc);
        assert forall|i: int, j: int| 0 <= i < pc.len() && 0 <= j < pc[i].len() implies #[trigger] pc[i][j]
            != '/' by {
            if i > 0 {
                assert(pc[i] == np[i - 1]);
                let j0 = choose|j: int| 0 <= j < ps.len() && ps[j] == np[i - 1];
                assert(ps[j0][j] != '/');
            }
        }
        let rel = join_with(pc, "/"@);
        lemma_split_join(pc);
        lemma_normal_parts_skip_dot(np);
        lemma_normal_parts(np);
        assert(normal_parts(np) == np);
        if np.len() == 0 {
            assert(pc =~= seq!["."@]);
            assert(rel == "."@);
        } else {
            lemma_join_front(pc, "/"@);
            assert(pc.drop_first() =~= np);
            assert(rel == "."@ + "/"@ + join_with(np, "/"@));
            assert(rel[1] == '/');
        }
        assert(rel[0] == '.');
        assert(path_components(rel) =~= pc);
        assert(pc =~= rc + path_components(rel));
        return;
    }
    assert forall|i: int| 0 <= i < rest.len() implies is_normal_part(#[trigger] rest[i]) && (forall|j: int|
        0 <= j < rest[i].len() ==> rest[i][j] != '/') by {
        let n = i + rc.len();
        let lead = pc.len() - np.len();
        assert(lead == 0 || lead == 1);
        assert(n >= lead);
        assert(rest[i] == pc[n]);
        assert(pc[n] == np[n - lead]);
        let j0 = choose|j: int| 0 <= j < ps.len() && ps[j] == np[n - lead];
        assert forall|j: int| 0 <= j < rest[i].len() implies rest[i][j] != '/' by {
            assert(ps[j0][j] != '/');
        }
    }
    assert forall|i: int, j: int| 0 <= i < rest.len() && 0 <= j < rest[i].len() implies #[trigger] rest[i][j]
        != '/' by {}
    lemma_components_of_join(rest);
    assert(pc =~= rc + rest);
    let rel = join_with(rest, "/"@);
    if rel.len() > 0 {
        assert(path_components(rel) == rest);
        if rel[0] == '/' {
            reveal_strlit("/");
            assert(path_components(rel)[0] == "/"@);
            assert(rest[0][0] == '/') by {
                assert(rest.len() > 0) by {
                    if rest.len() == 0 {
                        assert(rel.len() == 0);
                    }
                }
                if rest.len() >= 2 {
                    lemma_join_front(rest, "/"@);
                    assert(rel == rest[0] + "/"@ + join_with(rest.drop_first(), "/"@));
                } else {
                    assert(rel == rest[0]);
                }
                assert(rest[0].len() > 0);
                assert(rel[0] == rest[0][0]);
            }
        }
    }
}

} // verus!
