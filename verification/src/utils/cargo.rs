//! What the tool reads from Cargo manifests: the workspace members, a
//! manifest's package name and version, and whether it declares a workspace.
use crate::utils::text::{contains_text, owned, views};
use crate::utils::toml::{parse_document, toml_parse, TomlError, TomlNode};
use vstd::prelude::*;

verus! {

/// The node that `path` leads to from `doc`, key by key (`Item::get`).
pub open spec fn node_at(doc: TomlNode, path: Seq<Seq<char>>) -> Option<TomlNode>
    decreases path.len(),
{
    if path.len() == 0 {
        Some(doc)
    } else {
        match doc.get_spec(path[0]) {
            Some(n) => node_at(n, path.drop_first()),
            None => None,
        }
    }
}

/// The string that `path` leads to from `doc`, if it leads to a string.
pub open spec fn str_at(doc: TomlNode, path: Seq<Seq<char>>) -> Option<Seq<char>> {
    match node_at(doc, path) {
        Some(n) => n.str_spec(),
        None => None,
    }
}

pub proof fn lemma_node_at_one(doc: TomlNode, a: Seq<char>)
    ensures
        node_at(doc, seq![a]) == doc.get_spec(a),
{
    let rest = seq![a].drop_first();
    assert(rest =~= Seq::<Seq<char>>::empty());
    match doc.get_spec(a) {
        Some(n) => {
            assert(node_at(n, rest) == Some(n));
        },
        None => {},
    }
}

pub proof fn lemma_node_at_two(doc: TomlNode, a: Seq<char>, b: Seq<char>)
    ensures
        node_at(doc, seq![a, b]) == match doc.get_spec(a) {
            Some(n) => n.get_spec(b),
            None => None,
        },
{
    assert(seq![a, b].drop_first() =~= seq![b]);
    match doc.get_spec(a) {
        Some(n) => lemma_node_at_one(n, b),
        None => {},
    }
}

pub proof fn lemma_node_at_three(doc: TomlNode, a: Seq<char>, b: Seq<char>, c: Seq<char>)
    ensures
        node_at(doc, seq![a, b, c]) == match doc.get_spec(a) {
            Some(n) => node_at(n, seq![b, c]),
            None => None,
        },
{
    assert(seq![a, b, c].drop_first() =~= seq![b, c]);
}

/// The members of the repository's workspaces: package names, manifest paths
/// and the manifests that are workspace roots. Paths are compared as given;
/// callers canonicalize them first.
#[derive(Debug)]
pub struct WorkspaceMembers {
    pub names: Vec<String>,
    pub manifests: Vec<String>,
    pub roots: Vec<String>,
}

impl WorkspaceMembers {
    /// No members.
    pub fn new() -> (r: Self)
        ensures
            r.names@.len() == 0,
            r.manifests@.len() == 0,
            r.roots@.len() == 0,
    {
        WorkspaceMembers { names: Vec::new(), manifests: Vec::new(), roots: Vec::new() }
    }

    /// Whether a package of this name is a member.
    pub fn contains_name(&self, name: &str) -> (r: bool)
        ensures
            r == views(self.names@).contains(name@),
    {
        contains_text(&self.names, name)
    }

    /// Whether the manifest at this (canonical) path belongs to a member.
    pub fn contains_manifest(&self, manifest: &str) -> (r: bool)
        ensures
            r == views(self.manifests@).contains(manifest@),
    {
        contains_text(&self.manifests, manifest)
    }

    /// Whether the manifest at this (canonical) path is a workspace root.
    pub fn is_root(&self, manifest: &str) -> (r: bool)
        ensures
            r == views(self.roots@).contains(manifest@),
    {
        contains_text(&self.roots, manifest)
    }
}

/// Why a manifest's version could not be read.
#[derive(Debug)]
pub enum ManifestError {
    /// The manifest is not TOML; the parser's message.
    Parse(TomlError),
    /// Neither version field holds a string.
    NoVersion,
}

impl ManifestError {
    /// The error's message.
    pub open spec fn message(&self) -> Seq<char> {
        match self {
            ManifestError::Parse(e) => e.message@,
            ManifestError::NoVersion => "no workspace.package.version or package.version"@,
        }
    }

    /// The error's message.
    pub fn to_string(&self) -> (r: String)
        ensures
            r@ == self.message(),
    {
        match self {
            ManifestError::Parse(e) => e.to_string(),
            ManifestError::NoVersion => owned("no workspace.package.version or package.version"),
        }
    }
}

/// The version field a manifest's version is read from: `workspace.package.version`
/// when it is there, else `package.version`; it has to hold a string.
pub open spec fn version_field(doc: TomlNode) -> Option<TomlNode> {
    match node_at(doc, seq!["workspace"@, "package"@, "version"@]) {
        Some(n) => Some(n),
        None => node_at(doc, seq!["package"@, "version"@]),
    }
}

/// The version a manifest declares: `workspace.package.version`, or, in a
/// single-crate repository, `package.version`. The workspace version wins
/// when both are there, and a field that is present but holds no string (an
/// inherited `{ workspace = true }`) is no version.
pub fn manifest_version(content: &str) -> (r: Result<String, ManifestError>)
    ensures
        toml_parse(content@) is Err ==> (r matches Err(e) && e is Parse),
        r matches Err(ManifestError::Parse(p)) ==> toml_parse(content@) == crate::utils::toml::refused(
            p.message@,
        ),
        toml_parse(content@) matches Ok(doc) ==> match version_field(doc) {
            Some(n) => match n.str_spec() {
                Some(v) => (r matches Ok(s) && s@ == v),
                None => (r matches Err(e) && e is NoVersion),
            },
            None => (r matches Err(e) && e is NoVersion),
        },
{
    let doc = match parse_document(content) {
        Ok(doc) => doc,
        Err(e) => return Err(ManifestError::Parse(e)),
    };
    proof {
        lemma_node_at_three(doc, "workspace"@, "package"@, "version"@);
        lemma_node_at_two(doc, "package"@, "version"@);
        if let Some(w) = doc.get_spec("workspace"@) {
            lemma_node_at_two(w, "package"@, "version"@);
        }
    }
    let workspace_version = match doc.get("workspace") {
        Some(w) => match w.get("package") {
            Some(p) => p.get("version"),
            None => None,
        },
        None => None,
    };
    let field = match workspace_version {
        Some(v) => Some(v),
        None => match doc.get("package") {
            Some(p) => p.get("version"),
            None => None,
        },
    };
    match field {
        Some(v) => match v.as_str() {
            Some(s) => Ok(s.clone()),
            None => Err(ManifestError::NoVersion),
        },
        None => Err(ManifestError::NoVersion),
    }
}

/// Whether a manifest declares a `[workspace]`.
pub fn declares_workspace(content: &str) -> (r: Result<bool, TomlError>)
    ensures
        r matches Ok(b) ==> (toml_parse(content@) matches Ok(doc) && b == doc.get_spec("workspace"@) is Some),
        r matches Err(e) ==> toml_parse(content@) == crate::utils::toml::refused(e.message@),
{
    let doc = parse_document(content)?;
    Ok(doc.get("workspace").is_some())
}

/// The package name a manifest declares (`package.name`), if it holds a
/// string.
pub fn package_name(content: &str) -> (r: Result<Option<String>, TomlError>)
    ensures
        r matches Ok(n) ==> (toml_parse(content@) matches Ok(doc) && match str_at(
            doc,
            seq!["package"@, "name"@],
        ) {
            Some(s) => (n matches Some(m) && m@ == s),
            None => n is None,
        }),
        r matches Err(e) ==> toml_parse(content@) == crate::utils::toml::refused(e.message@),
{
    let doc = parse_document(content)?;
    proof {
        lemma_node_at_two(doc, "package"@, "name"@);
    }
    match doc.get("package") {
        Some(p) => match p.get("name") {
            Some(n) => match n.as_str() {
                Some(s) => Ok(Some(s.clone())),
                None => Ok(None),
            },
            None => Ok(None),
        },
        None => Ok(None),
    }
}

// ---------------------------------------------------------------------------
// Collecting workspace members
// ---------------------------------------------------------------------------

/// A package that `cargo metadata` lists: its id, name and (canonical)
/// manifest path.
#[derive(Debug, Clone)]
pub struct MetadataPackage {
    pub id: String,
    pub name: String,
    pub manifest_path: String,
}

/// What `cargo metadata --no-deps` reports of one workspace: its root
/// directory, the ids of its members, and its packages.
#[derive(Debug, Clone)]
pub struct WorkspaceMetadata {
    pub workspace_root: String,
    pub workspace_members: Vec<String>,
    pub packages: Vec<MetadataPackage>,
}

/// The packages of `ps` whose id is one of `ids`, in order.
pub open spec fn member_packages(ps: Seq<MetadataPackage>, ids: Seq<Seq<char>>) -> Seq<MetadataPackage>
    decreases ps.len(),
{
    if ps.len() == 0 {
        Seq::empty()
    } else {
        let rest = member_packages(ps.drop_last(), ids);
        if ids.contains(ps.last().id@) {
            rest.push(ps.last())
        } else {
            rest
        }
    }
}

/// The texts of `v` as a set.
pub open spec fn text_set(v: Vec<String>) -> Set<Seq<char>> {
    views(v@).to_set()
}

impl WorkspaceMembers {
    /// No text occurs twice in any of the three lists.
    pub open spec fn wf(&self) -> bool {
        &&& views(self.names@).no_duplicates()
        &&& views(self.manifests@).no_duplicates()
        &&& views(self.roots@).no_duplicates()
    }
}

/// `s` with `x` added at the end, unless it holds `x` already.
pub open spec fn with_new(s: Seq<Seq<char>>, x: Seq<char>) -> Seq<Seq<char>> {
    if s.contains(x) {
        s
    } else {
        s.push(x)
    }
}

/// `s` with each of `xs` added in turn, as `with_new` adds one.
pub open spec fn with_all_new(s: Seq<Seq<char>>, xs: Seq<Seq<char>>) -> Seq<Seq<char>>
    decreases xs.len(),
{
    if xs.len() == 0 {
        s
    } else {
        with_new(with_all_new(s, xs.drop_last()), xs.last())
    }
}

/// Adds `x` to `v` unless it is there already.
fn insert_once(v: &mut Vec<String>, x: String)
    ensures
        views(final(v)@) == with_new(views(old(v)@), x@),
        text_set(*final(v)) == text_set(*old(v)).insert(x@),
        views(old(v)@).no_duplicates() ==> views(final(v)@).no_duplicates(),
{
    if contains_text(v, x.as_str()) {
        assert(text_set(*v) =~= text_set(*v).insert(x@));
        return;
    }
    let ghost prev = views(v@);
    v.push(x);
    assert(views(v@) =~= prev.push(x@));
    proof {
        prev.lemma_push_to_set_commute(x@);
    }
}

impl WorkspaceMembers {
    /// Adds the workspace whose root manifest is `manifest` (canonical),
    /// as `cargo metadata` reports it, unless a workspace with the same root
    /// directory was added before (`seen_roots`): its member packages'
    /// names and manifests, and `manifest` as a root.
    pub fn add_workspace(&mut self, seen_roots: &mut Vec<String>, manifest: &str, metadata: &WorkspaceMetadata)
        ensures
            text_set(*old(seen_roots)).contains(metadata.workspace_root@) ==> (*final(self) == *old(
                self) && *final(seen_roots) == *old(seen_roots)),
            !text_set(*old(seen_roots)).contains(metadata.workspace_root@) ==> {
                let added = member_packages(metadata.packages@, views(metadata.workspace_members@));
                &&& text_set(*final(seen_roots)) == text_set(*old(seen_roots)).insert(
                    metadata.workspace_root@,
                )
                &&& text_set(final(self).names) == text_set(old(self).names).union(
                    added.map_values(|p: MetadataPackage| p.name@).to_set(),
                )
                &&& text_set(final(self).manifests) == text_set(old(self).manifests).union(
                    added.map_values(|p: MetadataPackage| p.manifest_path@).to_set(),
                )
                &&& text_set(final(self).roots) == text_set(old(self).roots).insert(manifest@)
                &&& views(final(seen_roots)@) == with_new(
                    views(old(seen_roots)@),
                    metadata.workspace_root@,
                )
                &&& views(final(self).names@) == with_all_new(
                    views(old(self).names@),
                    added.map_values(|p: MetadataPackage| p.name@),
                )
                &&& views(final(self).manifests@) == with_all_new(
                    views(old(self).manifests@),
                    added.map_values(|p: MetadataPackage| p.manifest_path@),
                )
                &&& views(final(self).roots@) == with_new(views(old(self).roots@), manifest@)
            },
            old(self).wf() ==> final(self).wf(),
    {
        if contains_text(seen_roots, metadata.workspace_root.as_str()) {
            return;
        }
        insert_once(seen_roots, metadata.workspace_root.clone());
        let ghost ids = views(metadata.workspace_members@);
        let ghost ps = metadata.packages@;
        let ghost names0 = text_set(self.names);
        let ghost manifests0 = text_set(self.manifests);
        let ghost name_seq0 = views(self.names@);
        let ghost manifest_seq0 = views(self.manifests@);
        let mut i: usize = 0;
        assert(member_packages(ps.take(0), ids) =~= Seq::<MetadataPackage>::empty());
        assert(names0.union(Seq::<Seq<char>>::empty().to_set()) =~= names0);
        assert(manifests0.union(Seq::<Seq<char>>::empty().to_set()) =~= manifests0);
        while i < metadata.packages.len()
            invariant
                i <= ps.len(),
                ps == metadata.packages@,
                ids == views(metadata.workspace_members@),
                text_set(self.names) == names0.union(
                    member_packages(ps.take(i as int), ids).map_values(|p: MetadataPackage| p.name@).to_set(),
                ),
                text_set(self.manifests) == manifests0.union(
                    member_packages(ps.take(i as int), ids).map_values(
                        |p: MetadataPackage| p.manifest_path@,
                    ).to_set(),
                ),
                old(self).wf() ==> views(self.names@).no_duplicates() && views(
                    self.manifests@,
                ).no_duplicates(),
                self.roots == old(self).roots,
                views(self.names@) == with_all_new(
                    name_seq0,
                    member_packages(ps.take(i as int), ids).map_values(|p: MetadataPackage| p.name@),
                ),
                views(self.manifests@) == with_all_new(
                    manifest_seq0,
                    member_packages(ps.take(i as int), ids).map_values(
                        |p: MetadataPackage| p.manifest_path@,
                    ),
                ),
            decreases ps.len() - i,
        {
            let pkg = &metadata.packages[i];
            let ghost before = member_packages(ps.take(i as int), ids);
            proof {
                assert(ps.take(i + 1).drop_last() == ps.take(i as int));
                assert(ps.take(i + 1).last() == ps[i as int]);
            }
            if contains_text(&metadata.workspace_members, pkg.id.as_str()) {
                insert_once(&mut self.names, pkg.name.clone());
                insert_once(&mut self.manifests, pkg.manifest_path.clone());
                proof {
                    let after = before.push(*pkg);
                    assert(after.map_values(|p: MetadataPackage| p.name@) =~= before.map_values(
                        |p: MetadataPackage| p.name@,
                    ).push(pkg.name@));
                    assert(after.map_values(|p: MetadataPackage| p.manifest_path@) =~= before.map_values(
                        |p: MetadataPackage| p.manifest_path@,
                    ).push(pkg.manifest_path@));
                    before.map_values(|p: MetadataPackage| p.name@).lemma_push_to_set_commute(
                        pkg.name@,
                    );
                    before.map_values(
                        |p: MetadataPackage| p.manifest_path@,
                    ).lemma_push_to_set_commute(pkg.manifest_path@);
                    let nb = before.map_values(|p: MetadataPackage| p.name@);
                    let mb = before.map_values(|p: MetadataPackage| p.manifest_path@);
                    assert(nb.push(pkg.name@).drop_last() =~= nb);
                    assert(mb.push(pkg.manifest_path@).drop_last() =~= mb);
                    assert(text_set(self.names) =~= names0.union(
                        after.map_values(|p: MetadataPackage| p.name@).to_set(),
                    ));
                    assert(text_set(self.manifests) =~= manifests0.union(
                        after.map_values(|p: MetadataPackage| p.manifest_path@).to_set(),
                    ));
                }
            }
            i = i + 1;
        }
        assert(ps.take(ps.len() as int) == ps);
        insert_once(&mut self.roots, owned(manifest));
    }
}

impl WorkspaceMembers {
    /// Whether the manifest at `manifest` belongs to a workspace already
    /// added, as a member or as a root.
    pub open spec fn claims(&self, manifest: Seq<char>) -> bool {
        text_set(self.manifests).contains(manifest) || text_set(self.roots).contains(manifest)
    }

    /// Adds the repository's root manifest `manifest` (canonical, with text
    /// `content`) as a workspace of its own when no workspace added so far
    /// claims it and it declares a package: a single-crate repository is its
    /// package's own single-member workspace, so that package's name joins
    /// the names and its manifest both the member manifests and the roots.
    /// A claimed manifest, or one without a `package.name`, changes nothing.
    pub fn add_unclaimed_root(&mut self, manifest: &str, content: &str) -> (r: Result<(), TomlError>)
        ensures
            old(self).claims(manifest@) ==> (r is Ok && *final(self) == *old(self)),
            !old(self).claims(manifest@) ==> match toml_parse(content@) {
                Err(m) => (r matches Err(e) && e.message@ == m && *final(self) == *old(self)),
                Ok(d) => r is Ok && match str_at(d, seq!["package"@, "name"@]) {
                    None => *final(self) == *old(self),
                    Some(name) => {
                        &&& views(final(self).names@) == with_new(views(old(self).names@), name)
                        &&& views(final(self).manifests@) == with_new(
                            views(old(self).manifests@),
                            manifest@,
                        )
                        &&& views(final(self).roots@) == with_new(views(old(self).roots@), manifest@)
                        &&& text_set(final(self).names) == text_set(old(self).names).insert(name)
                        &&& text_set(final(self).manifests) == text_set(old(self).manifests).insert(
                            manifest@,
                        )
                        &&& text_set(final(self).roots) == text_set(old(self).roots).insert(
                            manifest@,
                        )
                    },
                },
            },
            old(self).wf() ==> final(self).wf(),
    {
        if contains_text(&self.manifests, manifest) || contains_text(&self.roots, manifest) {
            return Ok(());
        }
        match package_name(content) {
            Err(e) => Err(e),
            Ok(None) => Ok(()),
            Ok(Some(name)) => {
                insert_once(&mut self.names, name);
                insert_once(&mut self.manifests, owned(manifest));
                insert_once(&mut self.roots, owned(manifest));
                Ok(())
            },
        }
    }
}

/// Why the crate names could not be collected.
#[derive(Debug)]
pub enum CrateScanError {
    /// A manifest could not be read; the reader's message.
    Read { message: String },
    /// A manifest did not parse.
    Parse(TomlError),
}

/// The package names of the first `n` manifests read (`read`, in order),
/// or the first failure: a manifest that could not be read, or did not
/// parse (the message of either).
pub open spec fn crate_names(read: Seq<Result<String, String>>, n: nat) -> Result<Seq<Seq<char>>, Seq<char>>
    decreases n,
{
    if n == 0 {
        Ok(Seq::empty())
    } else {
        match crate_names(read, (n - 1) as nat) {
            Err(m) => Err(m),
            Ok(names) => match read[n - 1] {
                Err(m) => Err(m@),
                Ok(text) => match toml_parse(text@) {
                    Err(m) => Err(m),
                    Ok(d) => match str_at(d, seq!["package"@, "name"@]) {
                        Some(name) => Ok(names.push(name)),
                        None => Ok(names),
                    },
                },
            },
        }
    }
}

/// Names found.
pub open spec fn names_found(names: Seq<Seq<char>>) -> Result<Seq<Seq<char>>, Seq<char>> {
    Ok(names)
}

/// The message of a crate-scan error.
pub open spec fn scan_message(e: CrateScanError) -> Seq<char> {
    match e {
        CrateScanError::Read { message } => message@,
        CrateScanError::Parse(t) => t.message@,
    }
}

impl CrateScanError {
    /// The error's message.
    pub fn to_string(&self) -> (r: String)
        ensures
            r@ == scan_message(*self),
    {
        match self {
            CrateScanError::Read { message } => message.clone(),
            CrateScanError::Parse(e) => e.to_string(),
        }
    }
}

/// The failure message `m`.
pub open spec fn scan_failed(m: Seq<char>) -> Result<Seq<Seq<char>>, Seq<char>> {
    Err(m)
}

/// Whether `e` is the error for the first failure among the first `n`
/// manifests read: `Read` with the reader's message for one that could not
/// be read, `Parse` with the parser's message for one that did not parse.
pub open spec fn crate_scan_failure(read: Seq<Result<String, String>>, n: nat, e: CrateScanError) -> bool
    decreases n,
{
    if n == 0 {
        false
    } else {
        match crate_names(read, (n - 1) as nat) {
            Err(_) => crate_scan_failure(read, (n - 1) as nat, e),
            Ok(_) => match read[n - 1] {
                Err(m) => e matches CrateScanError::Read { message } && message@ == m@,
                Ok(text) => match toml_parse(text@) {
                    Err(m) => e matches CrateScanError::Parse(t) && t.message@ == m,
                    Ok(_) => false,
                },
            },
        }
    }
}

/// The error of a failure among the first `k` manifests stays the error
/// for more.
proof fn lemma_crate_scan_failure_stays(read: Seq<Result<String, String>>, k: nat, n: nat, e: CrateScanError)
    requires
        k <= n,
        crate_names(read, k) is Err,
        crate_scan_failure(read, k, e),
    ensures
        crate_scan_failure(read, n, e),
    decreases n - k,
{
    if k < n {
        lemma_crate_scan_failure_stays(read, k, (n - 1) as nat, e);
        lemma_crate_names_fail(read, k, (n - 1) as nat);
    }
}

proof fn lemma_crate_names_fail(read: Seq<Result<String, String>>, k: nat, n: nat)
    requires
        k <= n,
        crate_names(read, k) is Err,
    ensures
        crate_names(read, n) == crate_names(read, k),
    decreases n - k,
{
    if k < n {
        lemma_crate_names_fail(read, k, (n - 1) as nat);
    }
}

/// The package names of all manifests in the repository, given what was
/// read for each (its text, or the reader's message), in walk order;
/// manifests without a `package.name` (virtual workspace roots) are
/// skipped.
pub fn get_all_crates(read: &Vec<Result<String, String>>) -> (r: Result<Vec<String>, CrateScanError>)
    ensures
        r matches Ok(v) ==> crate_names(read@, read@.len()) == names_found(views(v@)),
        r matches Err(e) ==> crate_names(read@, read@.len()) == scan_failed(scan_message(e)),
        r matches Err(e) ==> crate_scan_failure(read@, read@.len(), e),
{
    let mut crates: Vec<String> = Vec::new();
    let mut i: usize = 0;
    assert(views(crates@) =~= Seq::<Seq<char>>::empty());
    while i < read.len()
        invariant
            i <= read@.len(),
            crate_names(read@, i as nat) == names_found(views(crates@)),
        decreases read@.len() - i,
    {
        match &read[i] {
            Err(m) => {
                let e = CrateScanError::Read { message: m.clone() };
                proof {
                    lemma_crate_names_fail(read@, i as nat + 1, read@.len());
                    lemma_crate_scan_failure_stays(read@, i as nat + 1, read@.len(), e);
                }
                return Err(e);
            },
            Ok(text) => match package_name(text.as_str()) {
                Err(e) => {
                    let failure = CrateScanError::Parse(e);
                    proof {
                        lemma_crate_names_fail(read@, i as nat + 1, read@.len());
                        lemma_crate_scan_failure_stays(read@, i as nat + 1, read@.len(), failure);
                    }
                    return Err(failure);
                },
                Ok(name) => match name {
                    Some(n) => {
                        let ghost prev = crates@;
                        crates.push(n);
                        assert(views(crates@) =~= views(prev).push(crates@[prev.len() as int]@));
                    },
                    None => {},
                },
            },
        }
        i = i + 1;
    }
    Ok(crates)
}

} // verus!
