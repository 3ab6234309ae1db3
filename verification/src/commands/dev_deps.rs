//! The `dev-deps` command: workspace members should reach each other in
//! `[dev-dependencies]` by `path`, not by `workspace = true`.
use crate::utils::cargo::{lemma_node_at_two, node_at, str_at};
use crate::utils::text::{contains_text, debug_string, decimal, decimal_string, owned, str_debug, views};
use crate::utils::toml::{parse_document, toml_parse, TomlNode};
use vstd::prelude::*;

verus! {

/// The arguments of `dev-deps check`.
#[derive(Debug, Clone)]
pub struct CheckArgs {
    /// Path to the workspace Cargo.toml (`Cargo.toml` by default).
    pub manifest_path: String,
}

/// The subcommands of `dev-deps`.
#[derive(Debug, Clone)]
pub enum DevDepsCommands {
    /// Check dev-dependencies for workspace members using `workspace = true`.
    Check(CheckArgs),
}

/// The arguments of `dev-deps`.
#[derive(Debug, Clone)]
pub struct CommandArgs {
    pub command: DevDepsCommands,
}

/// Why a check failed.
#[derive(Debug)]
pub enum DevDepsError {
    /// The workspace manifest did not parse.
    Parse { path: String },
    /// The workspace manifest lists no `workspace.members` array.
    NoMembers,
    /// A member entry is not a string.
    MemberNotString,
    /// A member's manifest could not be read; the reader's message.
    MemberRead { message: String },
    /// A member's manifest did not parse; the parser's message.
    MemberParse { message: String },
    /// Members reach other members by `workspace = true`; one line each.
    Issues { lines: Vec<String> },
}

/// The message for `n` findings.
pub open spec fn issues_message(n: nat) -> Seq<char> {
    "Found "@ + decimal(n) + " dev-dependencies using 'workspace = true' that should use path"@
}

impl DevDepsError {
    /// The error's message.
    pub open spec fn message(&self) -> Seq<char> {
        match self {
            DevDepsError::Parse { path } => "Failed to parse "@ + str_debug(path@),
            DevDepsError::NoMembers => "No workspace.members found"@,
            DevDepsError::MemberNotString => "Member path is not a string"@,
            DevDepsError::MemberRead { message } => message@,
            DevDepsError::MemberParse { message } => message@,
            DevDepsError::Issues { lines } => issues_message(lines@.len()),
        }
    }

    /// The error's message.
    pub fn to_string(&self) -> (r: String)
        ensures
            r@ == self.message(),
    {
        match self {
            DevDepsError::Parse { path } => {
                let mut r = owned("Failed to parse ");
                r.append(debug_string(path.as_str()).as_str());
                r
            },
            DevDepsError::NoMembers => owned("No workspace.members found"),
            DevDepsError::MemberNotString => owned("Member path is not a string"),
            DevDepsError::MemberRead { message } => message.clone(),
            DevDepsError::MemberParse { message } => message.clone(),
            DevDepsError::Issues { lines } => {
                let mut r = owned("Found ");
                r.append(decimal_string(lines.len() as u64).as_str());
                r.append(" dev-dependencies using 'workspace = true' that should use path");
                r
            },
        }
    }
}

// ---------------------------------------------------------------------------
// Specification
// ---------------------------------------------------------------------------

/// The entries of `workspace.members`, when it is an array.
pub open spec fn member_items(doc: TomlNode) -> Option<Seq<TomlNode>> {
    match node_at(doc, seq!["workspace"@, "members"@]) {
        Some(TomlNode::Array { items, .. }) => Some(items@),
        _ => None,
    }
}

/// What was read for member `i`: its manifest's text, `None` when it does
/// not exist, or the reader's message; `None` past the end of `read`.
pub open spec fn read_at(read: Seq<Result<Option<String>, String>>, i: int) -> Result<Option<Seq<char>>, Seq<char>> {
    if 0 <= i < read.len() {
        match read[i] {
            Ok(Some(t)) => Ok(Some(t@)),
            Ok(None) => Ok(None),
            Err(m) => Err(m@),
        }
    } else {
        Ok(None)
    }
}

/// The package names of the first `n` members, in member order, or the
/// message of the first failure among them: a member that is no string, a
/// manifest that could not be read or did not parse.
pub open spec fn member_names(
    items: Seq<TomlNode>,
    read: Seq<Result<Option<String>, String>>,
    n: nat,
) -> Result<Seq<Seq<char>>, Seq<char>>
    decreases n,
{
    if n == 0 {
        Ok(Seq::empty())
    } else {
        let i = n - 1;
        match member_names(items, read, (n - 1) as nat) {
            Err(m) => Err(m),
            Ok(names) => if items[i].str_spec() is None {
                Err("Member path is not a string"@)
            } else {
                match read_at(read, i) {
                    Err(m) => Err(m),
                    Ok(None) => Ok(names),
                    Ok(Some(text)) => match toml_parse(text) {
                        Err(m) => Err(m),
                        Ok(d) => match str_at(d, seq!["package"@, "name"@]) {
                            Some(name) => Ok(names.push(name)),
                            None => Ok(names),
                        },
                    },
                }
            },
        }
    }
}

/// Whether `e` is the error for the first failure among the first `n`
/// members: `MemberNotString` for a member that is no string, `MemberRead`
/// with the reader's message for a manifest that could not be read,
/// `MemberParse` with the parser's message for one that did not parse.
pub open spec fn member_failure(
    items: Seq<TomlNode>,
    read: Seq<Result<Option<String>, String>>,
    n: nat,
    e: DevDepsError,
) -> bool
    decreases n,
{
    if n == 0 {
        false
    } else {
        let i = n - 1;
        match member_names(items, read, (n - 1) as nat) {
            Err(_) => member_failure(items, read, (n - 1) as nat, e),
            Ok(_) => if items[i].str_spec() is None {
                e is MemberNotString
            } else {
                match read_at(read, i) {
                    Err(m) => e matches DevDepsError::MemberRead { message } && message@ == m,
                    Ok(None) => false,
                    Ok(Some(text)) => match toml_parse(text) {
                        Err(m) => e matches DevDepsError::MemberParse { message } && message@ == m,
                        Ok(_) => false,
                    },
                }
            },
        }
    }
}

/// The finding line for member `member` reaching `dep` by `workspace = true`.
pub open spec fn issue_line(member: Seq<char>, dep: Seq<char>) -> Seq<char> {
    member + "/Cargo.toml - `"@ + dep + "` in dev-dependencies should use path = \"...\""@
}

/// Whether a dev-dependency entry is a finding: a table-like entry with
/// `workspace = true` naming a member package.
pub open spec fn flagged(e: (String, TomlNode), names: Seq<Seq<char>>) -> bool {
    (match e.1.get_spec("workspace"@) {
        Some(w) => w.bool_spec() == Some(true),
        None => false,
    }) && names.contains(e.0@)
}

/// The findings among the first `n` dev-dependency entries of `member`: a
/// table-like entry with `workspace = true` naming a member package.
pub open spec fn entry_issues(
    member: Seq<char>,
    entries: Seq<(String, TomlNode)>,
    names: Seq<Seq<char>>,
    n: nat,
) -> Seq<Seq<char>>
    decreases n,
{
    if n == 0 {
        Seq::empty()
    } else {
        let rest = entry_issues(member, entries, names, (n - 1) as nat);
        let e = entries[n - 1];
        if flagged(e, names) {
            rest.push(issue_line(member, e.0@))
        } else {
            rest
        }
    }
}

/// The findings of one member manifest: its `[dev-dependencies]` header
/// table, entry by entry.
pub open spec fn manifest_issues(member: Seq<char>, doc: TomlNode, names: Seq<Seq<char>>) -> Seq<
    Seq<char>,
> {
    match doc.get_spec("dev-dependencies"@) {
        Some(TomlNode::Table { entries, .. }) => entry_issues(member, entries@, names, entries@.len()),
        _ => Seq::empty(),
    }
}

/// The findings of the first `n` members, in order.
pub open spec fn member_issues(
    items: Seq<TomlNode>,
    read: Seq<Result<Option<String>, String>>,
    names: Seq<Seq<char>>,
    n: nat,
) -> Seq<Seq<char>>
    decreases n,
{
    if n == 0 {
        Seq::empty()
    } else {
        let i = n - 1;
        let rest = member_issues(items, read, names, (n - 1) as nat);
        match (items[i].str_spec(), read_at(read, i)) {
            (Some(member), Ok(Some(text))) => match toml_parse(text) {
                Ok(d) => rest + manifest_issues(member, d, names),
                Err(_) => rest,
            },
            _ => rest,
        }
    }
}

// ---------------------------------------------------------------------------
// The check
// ---------------------------------------------------------------------------

/// Whether `v` is the member entry `item`: its path when it is a string.
pub open spec fn member_entry(item: TomlNode, v: Option<String>) -> bool {
    match item.str_spec() {
        Some(m) => (v matches Some(x) && x@ == m),
        None => v is None,
    }
}

/// The entries of `workspace.members` in the workspace manifest `content`
/// (read from `manifest_path`): each as its path when it is a string.
pub fn workspace_members_of(manifest_path: &str, content: &str) -> (r: Result<
    Vec<Option<String>>,
    DevDepsError,
>)
    ensures
        match toml_parse(content@) {
            Err(_) => (r matches Err(e) && e matches DevDepsError::Parse { path } && path@
                == manifest_path@),
            Ok(d) => match member_items(d) {
                None => (r matches Err(e) && e is NoMembers),
                Some(items) => (r matches Ok(v) && v@.len() == items.len() && forall|i: int|
                    0 <= i < items.len() ==> member_entry(items[i], #[trigger] v@[i])),
            },
        },
{
    let doc = match parse_document(content) {
        Ok(d) => d,
        Err(_) => return Err(DevDepsError::Parse { path: owned(manifest_path) }),
    };
    let items = match member_items_of(&doc) {
        Some(items) => items,
        None => return Err(DevDepsError::NoMembers),
    };
    let mut r: Vec<Option<String>> = Vec::new();
    let mut i: usize = 0;
    while i < items.len()
        invariant
            i <= items@.len(),
            r@.len() == i,
            forall|j: int| 0 <= j < i ==> member_entry(items@[j], #[trigger] r@[j]),
        decreases items@.len() - i,
    {
        match items[i].as_str() {
            Some(m) => r.push(Some(m.clone())),
            None => r.push(None),
        }
        i = i + 1;
    }
    Ok(r)
}

/// The elements of `workspace.members`, when it is an array.
fn member_items_of(doc: &TomlNode) -> (r: Option<&Vec<TomlNode>>)
    ensures
        match member_items(*doc) {
            Some(items) => (r matches Some(v) && v@ == items),
            None => r is None,
        },
{
    proof {
        lemma_node_at_two(*doc, "workspace"@, "members"@);
    }
    match doc.get("workspace") {
        Some(w) => match w.get("members") {
            Some(m) => m.as_array(),
            None => None,
        },
        None => None,
    }
}

/// Adds the findings of the member `member` with manifest `doc` to `lines`.
fn add_manifest_issues(member: &String, doc: &TomlNode, names: &Vec<String>, lines: &mut Vec<String>)
    ensures
        views(final(lines)@) == views(old(lines)@) + manifest_issues(member@, *doc, views(names@)),
{
    let deps = match doc.get("dev-dependencies") {
        Some(d) => d,
        None => {
            assert(views(old(lines)@) + Seq::<Seq<char>>::empty() =~= views(old(lines)@));
            return;
        },
    };
    let entries = match deps.as_table() {
        Some(e) => e,
        None => {
            assert(views(old(lines)@) + Seq::<Seq<char>>::empty() =~= views(old(lines)@));
            return;
        },
    };
    let ghost start = views(lines@);
    let mut i: usize = 0;
    assert(start + entry_issues(member@, entries@, views(names@), 0) =~= start);
    while i < entries.len()
        invariant
            i <= entries@.len(),
            views(lines@) == start + entry_issues(member@, entries@, views(names@), i as nat),
        decreases entries@.len() - i,
    {
        let e = &entries[i];
        let flagged = match e.1.get("workspace") {
            Some(w) => match w.as_bool() {
                Some(b) => b,
                None => false,
            },
            None => false,
        };
        if flagged && contains_text(names, e.0.as_str()) {
            let mut line = member.clone();
            line.append("/Cargo.toml - `");
            line.append(e.0.as_str());
            line.append("` in dev-dependencies should use path = \"...\"");
            let ghost prev = lines@;
            lines.push(line);
            assert(views(lines@) =~= views(prev).push(issue_line(member@, e.0@)));
        }
        i = i + 1;
    }
}

/// Checks the dev-dependencies of the workspace manifest `workspace` (read
/// from `args.manifest_path`), given what was read for each entry of its
/// `workspace.members`, in order (see [`workspace_members_of`]): the
/// member's manifest, `None` when it does not exist, or the reader's
/// message. Members' package names are collected first; then each member's
/// `[dev-dependencies]` that use `workspace = true` for a member are found.
pub fn run_check(
    args: &CheckArgs,
    workspace: &str,
    read: &Vec<Result<Option<String>, String>>,
) -> (r: Result<(), DevDepsError>)
    ensures
        match toml_parse(workspace@) {
            Err(_) => (r matches Err(e) && e matches DevDepsError::Parse { path } && path@
                == args.manifest_path@),
            Ok(d) => match member_items(d) {
                None => (r matches Err(e) && e is NoMembers),
                Some(items) => match member_names(items, read@, items.len()) {
                    Err(m) => (r matches Err(e) && member_failure(items, read@, items.len(), e)
                        && e.message() == m),
                    Ok(names) => {
                        let issues = member_issues(items, read@, names, items.len());
                        &&& r is Ok <==> issues.len() == 0
                        &&& r matches Err(e) ==> (e matches DevDepsError::Issues { lines }
                            && views(lines@) == issues)
                    },
                },
            },
        },
{
    let doc = match parse_document(workspace) {
        Ok(d) => d,
        Err(_) => return Err(DevDepsError::Parse { path: args.manifest_path.clone() }),
    };
    let items = match member_items_of(&doc) {
        Some(items) => items,
        None => return Err(DevDepsError::NoMembers),
    };
    // 1. The package names of the members.
    let mut names: Vec<String> = Vec::new();
    let mut i: usize = 0;
    assert(views(names@) =~= Seq::<Seq<char>>::empty());
    while i < items.len()
        invariant
            i <= items@.len(),
            toml_parse(workspace@) == crate::utils::toml::parsed(doc),
            member_items(doc) == Some(items@),
            member_names(items@, read@, i as nat) == names_found(views(names@)),
        decreases items@.len() - i,
    {
        if items[i].as_str().is_none() {
            let e = DevDepsError::MemberNotString;
            proof {
                lemma_member_names_fail(items@, read@, i as nat + 1, items@.len());
                lemma_member_failure_stays(items@, read@, i as nat + 1, items@.len(), e);
            }
            return Err(e);
        }
        if i < read.len() {
            match &read[i] {
                Err(m) => {
                    let e = DevDepsError::MemberRead { message: m.clone() };
                    proof {
                        lemma_member_names_fail(items@, read@, i as nat + 1, items@.len());
                        lemma_member_failure_stays(items@, read@, i as nat + 1, items@.len(), e);
                    }
                    return Err(e);
                },
                Ok(None) => {},
                Ok(Some(text)) => match parse_document(text.as_str()) {
                    Err(e) => {
                        let failure = DevDepsError::MemberParse { message: e.message };
                        proof {
                            lemma_member_names_fail(items@, read@, i as nat + 1, items@.len());
                            lemma_member_failure_stays(
                                items@,
                                read@,
                                i as nat + 1,
                                items@.len(),
                                failure,
                            );
                        }
                        return Err(failure);
                    },
                    Ok(d) => {
                        proof {
                            lemma_node_at_two(d, "package"@, "name"@);
                        }
                        let name = match d.get("package") {
                            Some(p) => match p.get("name") {
                                Some(n) => n.as_str(),
                                None => None,
                            },
                            None => None,
                        };
                        match name {
                            Some(n) => {
                                let ghost prev = names@;
                                names.push(n.clone());
                                assert(views(names@) =~= views(prev).push(n@));
                            },
                            None => {},
                        }
                    },
                },
            }
        }
        i = i + 1;
    }
    // 2. The dev-dependencies of each member.
    let ghost ns = views(names@);
    let mut lines: Vec<String> = Vec::new();
    let mut i: usize = 0;
    while i < items.len()
        invariant
            i <= items@.len(),
            toml_parse(workspace@) == crate::utils::toml::parsed(doc),
            member_items(doc) == Some(items@),
            member_names(items@, read@, items@.len()) == names_found(ns),
            ns == views(names@),
            views(lines@) == member_issues(items@, read@, ns, i as nat),
        decreases items@.len() - i,
    {
        match items[i].as_str() {
            Some(member) => {
                if i < read.len() {
                    match &read[i] {
                        Ok(Some(text)) => match parse_document(text.as_str()) {
                            Ok(d) => add_manifest_issues(member, &d, &names, &mut lines),
                            Err(_) => {},
                        },
                        _ => {},
                    }
                }
            },
            None => {},
        }
        i = i + 1;
    }
    if lines.len() == 0 {
        Ok(())
    } else {
        Err(DevDepsError::Issues { lines })
    }
}

/// Package names found.
pub open spec fn names_found(names: Seq<Seq<char>>) -> Result<Seq<Seq<char>>, Seq<char>> {
    Ok(names)
}

/// A failure among the first `k` members stays the result for more.
proof fn lemma_member_names_fail(
    items: Seq<TomlNode>,
    read: Seq<Result<Option<String>, String>>,
    k: nat,
    n: nat,
)
    requires
        k <= n,
        member_names(items, read, k) is Err,
    ensures
        member_names(items, read, n) == member_names(items, read, k),
    decreases n - k,
{
    if k < n {
        lemma_member_names_fail(items, read, k, (n - 1) as nat);
    }
}

/// The error of a failure among the first `k` members stays the error for
/// more.
proof fn lemma_member_failure_stays(
    items: Seq<TomlNode>,
    read: Seq<Result<Option<String>, String>>,
    k: nat,
    n: nat,
    e: DevDepsError,
)
    requires
        k <= n,
        member_names(items, read, k) is Err,
        member_failure(items, read, k, e),
    ensures
        member_failure(items, read, n, e),
    decreases n - k,
{
    if k < n {
        lemma_member_failure_stays(items, read, k, (n - 1) as nat, e);
        lemma_member_names_fail(items, read, k, (n - 1) as nat);
    }
}

/// Runs `dev-deps` on the workspace manifest `workspace` and what was read
/// for its members (see [`run_check`]).
pub fn run(args: &CommandArgs, workspace: &str, read: &Vec<Result<Option<String>, String>>) -> (r:
    Result<(), DevDepsError>)
    ensures
        match args.command {
            DevDepsCommands::Check(c) => match toml_parse(workspace@) {
                Err(_) => (r matches Err(e) && e matches DevDepsError::Parse { path } && path@
                    == c.manifest_path@),
                Ok(d) => match member_items(d) {
                    None => (r matches Err(e) && e is NoMembers),
                    Some(items) => match member_names(items, read@, items.len()) {
                        Err(m) => (r matches Err(e) && member_failure(items, read@, items.len(), e)
                        && e.message() == m),
                        Ok(names) => {
                            let issues = member_issues(items, read@, names, items.len());
                            &&& r is Ok <==> issues.len() == 0
                            &&& r matches Err(e) ==> (e matches DevDepsError::Issues { lines }
                                && views(lines@) == issues)
                        },
                    },
                },
            },
        },
{
    match &args.command {
        DevDepsCommands::Check(check) => run_check(check, workspace, read),
    }
}

// ---------------------------------------------------------------------------
// Laws
// ---------------------------------------------------------------------------

/// A member manifest read as `text`.
pub open spec fn read_text(text: Seq<char>) -> Result<Option<Seq<char>>, Seq<char>> {
    Ok(Some(text))
}

/// How many of the first `n` entries are findings.
pub open spec fn flagged_count(entries: Seq<(String, TomlNode)>, names: Seq<Seq<char>>, n: nat) -> nat
    decreases n,
{
    if n == 0 {
        0
    } else {
        flagged_count(entries, names, (n - 1) as nat) + if flagged(entries[n - 1], names) {
            1nat
        } else {
            0nat
        }
    }
}

/// The `[dev-dependencies]` header table of a manifest, if any.
pub open spec fn dev_dependencies(doc: TomlNode) -> Seq<(String, TomlNode)> {
    match doc.get_spec("dev-dependencies"@) {
        Some(TomlNode::Table { entries, .. }) => entries@,
        _ => Seq::empty(),
    }
}

/// The number of (member, dev-dependency) pairs among the first `n`
/// members whose dev-dependency uses `workspace = true` for a member.
pub open spec fn flagged_pairs(
    items: Seq<TomlNode>,
    read: Seq<Result<Option<String>, String>>,
    names: Seq<Seq<char>>,
    n: nat,
) -> nat
    decreases n,
{
    if n == 0 {
        0
    } else {
        let i = n - 1;
        let rest = flagged_pairs(items, read, names, (n - 1) as nat);
        match (items[i].str_spec(), read_at(read, i)) {
            (Some(_), Ok(Some(text))) => match toml_parse(text) {
                Ok(d) => rest + flagged_count(
                    dev_dependencies(d),
                    names,
                    dev_dependencies(d).len(),
                ),
                Err(_) => rest,
            },
            _ => rest,
        }
    }
}

proof fn lemma_entry_issues_len(
    member: Seq<char>,
    entries: Seq<(String, TomlNode)>,
    names: Seq<Seq<char>>,
    n: nat,
)
    ensures
        entry_issues(member, entries, names, n).len() == flagged_count(entries, names, n),
    decreases n,
{
    if n > 0 {
        lemma_entry_issues_len(member, entries, names, (n - 1) as nat);
    }
}

/// The check reports one finding per (member, dev-dependency) pair that
/// uses `workspace = true` for a member package, so its verdict reads
/// "Found N dev-dependencies ..." with N the number of such pairs, and it
/// passes exactly when there is none.
pub proof fn findings_count_flagged_pairs(
    items: Seq<TomlNode>,
    read: Seq<Result<Option<String>, String>>,
    names: Seq<Seq<char>>,
    n: nat,
)
    ensures
        member_issues(items, read, names, n).len() == flagged_pairs(items, read, names, n),
        issues_message(member_issues(items, read, names, n).len()) == issues_message(
            flagged_pairs(items, read, names, n),
        ),
    decreases n,
{
    if n > 0 {
        findings_count_flagged_pairs(items, read, names, (n - 1) as nat);
        let i = n - 1;
        match (items[i].str_spec(), read_at(read, i)) {
            (Some(member), Ok(Some(text))) => match toml_parse(text) {
                Ok(d) => {
                    let es = dev_dependencies(d);
                    lemma_entry_issues_len(member, es, names, es.len());
                },
                Err(_) => {},
            },
            _ => {},
        }
    }
}

/// `workspace = true` is only a finding under `[dev-dependencies]` and for
/// a member package: when no member's `[dev-dependencies]` holds such an
/// entry (whatever its `[dependencies]` hold, and however it names packages
/// that no member has), the check finds nothing.
pub proof fn clean_dev_dependencies_pass(
    items: Seq<TomlNode>,
    read: Seq<Result<Option<String>, String>>,
    names: Seq<Seq<char>>,
    n: nat,
)
    requires
        forall|i: int, text: Seq<char>, d: TomlNode|
            0 <= i < n && read_at(read, i) == read_text(text)
                && toml_parse(text) == crate::utils::toml::parsed(d) ==> forall|j: int|
                0 <= j < dev_dependencies(d).len() ==> !flagged(
                    #[trigger] dev_dependencies(d)[j],
                    names,
                ),
    ensures
        member_issues(items, read, names, n).len() == 0,
{
    findings_count_flagged_pairs(items, read, names, n);
    lemma_no_flagged_pairs(items, read, names, n);
}

proof fn lemma_flagged_count_zero(entries: Seq<(String, TomlNode)>, names: Seq<Seq<char>>, n: nat)
    requires
        n <= entries.len(),
        forall|j: int| 0 <= j < n ==> !flagged(#[trigger] entries[j], names),
    ensures
        flagged_count(entries, names, n) == 0,
    decreases n,
{
    if n > 0 {
        lemma_flagged_count_zero(entries, names, (n - 1) as nat);
    }
}

proof fn lemma_no_flagged_pairs(
    items: Seq<TomlNode>,
    read: Seq<Result<Option<String>, String>>,
    names: Seq<Seq<char>>,
    n: nat,
)
    requires
        forall|i: int, text: Seq<char>, d: TomlNode|
            0 <= i < n && read_at(read, i) == read_text(text)
                && toml_parse(text) == crate::utils::toml::parsed(d) ==> forall|j: int|
                0 <= j < dev_dependencies(d).len() ==> !flagged(
                    #[trigger] dev_dependencies(d)[j],
                    names,
                ),
    ensures
        flagged_pairs(items, read, names, n) == 0,
    decreases n,
{
    if n > 0 {
        lemma_no_flagged_pairs(items, read, names, (n - 1) as nat);
        let i = n - 1;
        match (items[i].str_spec(), read_at(read, i)) {
            (Some(_), Ok(Some(text))) => match toml_parse(text) {
                Ok(d) => {
                    assert(toml_parse(text) == crate::utils::toml::parsed(d));
                    lemma_flagged_count_zero(dev_dependencies(d), names, dev_dependencies(d).len());
                },
                Err(_) => {},
            },
            _ => {},
        }
    }
}

/// A member whose manifest names its package `name` is among the member
/// package names.
proof fn lemma_member_names_have(
    items: Seq<TomlNode>,
    read: Seq<Result<Option<String>, String>>,
    n: nat,
    a: int,
    text: Seq<char>,
    d: TomlNode,
    name: Seq<char>,
)
    requires
        member_names(items, read, n) is Ok,
        0 <= a < n,
        read_at(read, a) == read_text(text),
        toml_parse(text) == crate::utils::toml::parsed(d),
        str_at(d, seq!["package"@, "name"@]) == Some(name),
    ensures
        member_names(items, read, n)->Ok_0.contains(name),
    decreases n,
{
    let prev = member_names(items, read, (n - 1) as nat);
    assert(prev is Ok);
    let names = prev->Ok_0;
    if a == n - 1 {
        assert(member_names(items, read, n) == Ok::<Seq<Seq<char>>, Seq<char>>(names.push(name)));
        assert(names.push(name)[names.len() as int] == name);
    } else {
        lemma_member_names_have(items, read, (n - 1) as nat, a, text, d, name);
        let r = member_names(items, read, n)->Ok_0;
        let w = choose|w: int| 0 <= w < names.len() && names[w] == name;
        assert(r == names || r == names.push(r.last()));
        if r != names {
            assert(r[w] == names[w]);
        }
    }
}

/// A flagged entry among the first `m` gives its finding line.
proof fn lemma_entry_issues_have(
    member: Seq<char>,
    entries: Seq<(String, TomlNode)>,
    names: Seq<Seq<char>>,
    m: nat,
    j: int,
)
    requires
        0 <= j < m <= entries.len(),
        flagged(entries[j], names),
    ensures
        entry_issues(member, entries, names, m).contains(issue_line(member, entries[j].0@)),
    decreases m,
{
    let rest = entry_issues(member, entries, names, (m - 1) as nat);
    let line = issue_line(member, entries[j].0@);
    if j == m - 1 {
        assert(entry_issues(member, entries, names, m) == rest.push(line));
        assert(rest.push(line)[rest.len() as int] == line);
    } else {
        lemma_entry_issues_have(member, entries, names, (m - 1) as nat, j);
        let w = choose|w: int| 0 <= w < rest.len() && rest[w] == line;
        let r = entry_issues(member, entries, names, m);
        if r != rest {
            assert(r == rest.push(issue_line(member, entries[m - 1].0@)));
            assert(r[w] == rest[w]);
        }
    }
}

/// A finding of member `b`'s manifest is among the findings of the first
/// `n` members.
proof fn lemma_member_issues_have(
    items: Seq<TomlNode>,
    read: Seq<Result<Option<String>, String>>,
    names: Seq<Seq<char>>,
    n: nat,
    b: int,
    text: Seq<char>,
    d: TomlNode,
    line: Seq<char>,
)
    requires
        0 <= b < n,
        items[b].str_spec() is Some,
        read_at(read, b) == read_text(text),
        toml_parse(text) == crate::utils::toml::parsed(d),
        manifest_issues(items[b].str_spec()->Some_0, d, names).contains(line),
    ensures
        member_issues(items, read, names, n).contains(line),
    decreases n,
{
    let rest = member_issues(items, read, names, (n - 1) as nat);
    let r = member_issues(items, read, names, n);
    if b == n - 1 {
        let mi = manifest_issues(items[b].str_spec()->Some_0, d, names);
        assert(r == rest + mi);
        let w = choose|w: int| 0 <= w < mi.len() && mi[w] == line;
        assert((rest + mi)[rest.len() + w] == line);
    } else {
        lemma_member_issues_have(items, read, names, (n - 1) as nat, b, text, d, line);
        let w = choose|w: int| 0 <= w < rest.len() && rest[w] == line;
        let i = n - 1;
        match (items[i].str_spec(), read_at(read, i)) {
            (Some(member), Ok(Some(t))) => match toml_parse(t) {
                Ok(d2) => {
                    assert(r == rest + manifest_issues(member, d2, names));
                    assert(r[w] == rest[w]);
                },
                Err(_) => {},
            },
            _ => {},
        }
    }
}

/// Members are known by their package names, not their paths: when one
/// member's manifest names its package `name` and another member's
/// `[dev-dependencies]` reaches `name` with `workspace = true`, the check
/// reports that member and `name`, wherever the members live.
pub proof fn dev_dependency_on_a_member_package_is_reported(
    items: Seq<TomlNode>,
    read: Seq<Result<Option<String>, String>>,
    a: int,
    text_a: Seq<char>,
    doc_a: TomlNode,
    name: Seq<char>,
    b: int,
    text_b: Seq<char>,
    doc_b: TomlNode,
    j: int,
)
    requires
        member_names(items, read, items.len()) is Ok,
        0 <= a < items.len(),
        read_at(read, a) == read_text(text_a),
        toml_parse(text_a) == crate::utils::toml::parsed(doc_a),
        str_at(doc_a, seq!["package"@, "name"@]) == Some(name),
        0 <= b < items.len(),
        items[b].str_spec() is Some,
        read_at(read, b) == read_text(text_b),
        toml_parse(text_b) == crate::utils::toml::parsed(doc_b),
        0 <= j < dev_dependencies(doc_b).len(),
        dev_dependencies(doc_b)[j].0@ == name,
        dev_dependencies(doc_b)[j].1.get_spec("workspace"@) matches Some(w) && w.bool_spec()
            == Some(true),
    ensures
        member_issues(
            items,
            read,
            member_names(items, read, items.len())->Ok_0,
            items.len(),
        ).contains(issue_line(items[b].str_spec()->Some_0, name)),
{
    let names = member_names(items, read, items.len())->Ok_0;
    lemma_member_names_have(items, read, items.len(), a, text_a, doc_a, name);
    let es = dev_dependencies(doc_b);
    let member = items[b].str_spec()->Some_0;
    assert(flagged(es[j], names));
    lemma_entry_issues_have(member, es, names, es.len(), j);
    assert(manifest_issues(member, doc_b, names) == entry_issues(member, es, names, es.len()));
    lemma_member_issues_have(
        items,
        read,
        names,
        items.len(),
        b,
        text_b,
        doc_b,
        issue_line(member, name),
    );
}

} // verus!
