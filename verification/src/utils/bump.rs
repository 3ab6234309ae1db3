//! Which fields a version bump may touch, and how to check that a bump
//! touched only those.
use crate::utils::cargo::{node_at, str_at, WorkspaceMembers};
use crate::utils::ordmap::{
    entries_map, entry_keys, key_order, keys_increasing, lemma_entries_map, lemma_key_order, parts_lt,
    SortedMap, Textual,
};
use crate::utils::text::{
    chars_between, chars_eq, chars_of, concat2, concat3, contains_text, debug_string,
    decimal_string, join_strings, join_with, lex_lt, owned, str_debug, string_of, trim, trim_str,
    views,
};
use crate::utils::toml::{
    element_leaves, entry_leaves, index_key, join_key, leaves, lookup, parse_document, toml_parse, Leaf,
    TomlError, TomlNode,
};
use crate::utils::version::{version_text, Version};
use vstd::prelude::*;

verus! {

// ---------------------------------------------------------------------------
// Flattening a document into its leaves
// ---------------------------------------------------------------------------

/// The views of collected leaves.
pub open spec fn leaf_views(v: Seq<(String, String)>) -> Seq<Leaf> {
    v.map_values(|p: (String, String)| (p.0@, p.1@))
}

/// The map of a sequence of leaves, a later leaf replacing an earlier one with
/// the same path (as inserting them into a map in order does).
pub open spec fn leaf_map(ls: Seq<Leaf>) -> Map<Seq<Seq<char>>, Seq<Seq<char>>>
    decreases ls.len(),
{
    if ls.len() == 0 {
        Map::empty()
    } else {
        leaf_map(ls.drop_last()).insert(seq![ls.last().0], seq![ls.last().1])
    }
}

/// Every leaf of `doc` by its dotted path.
pub open spec fn flat(doc: TomlNode) -> Map<Seq<Seq<char>>, Seq<Seq<char>>> {
    leaf_map(leaves(doc, Seq::empty()))
}

/// `prefix.key`, or `key` at the root.
fn join(prefix: &String, key: &String) -> (r: String)
    ensures
        r@ == join_key(prefix@, key@),
{
    if prefix.as_str().is_empty() {
        key.clone()
    } else {
        let r = concat3(prefix.as_str(), ".", key.as_str());
        proof {
            reveal_strlit(".");
        }
        r
    }
}

/// `path[i]`.
fn index_path(path: &String, i: usize) -> (r: String)
    ensures
        r@ == index_key(path@, i as nat),
{
    let n = decimal_string(i as u64);
    let mut r = concat2(path.as_str(), "[");
    r.append(n.as_str());
    r.append("]");
    proof {
        reveal_strlit("[");
        reveal_strlit("]");
    }
    r
}

proof fn lemma_flatten_step(g: Seq<Seq<Leaf>>, i: int)
    requires
        0 <= i < g.len(),
    ensures
        g.take(i + 1).flatten() == g.take(i).flatten() + g[i],
{
    assert(g.take(i + 1) == g.take(i).push(g[i]));
    g.take(i).lemma_flatten_push(g[i]);
}

/// Collects the leaves of the entries of a table, each under `prefix.key`.
fn walk_table(entries: &Vec<(String, TomlNode)>, prefix: &String, out: &mut Vec<(String, String)>)
    ensures
        leaf_views(final(out)@) == leaf_views(old(out)@) + entry_leaves(*entries, prefix@).flatten(),
    decreases entries, 0nat,
{
    let ghost g = entry_leaves(*entries, prefix@);
    let ghost start = leaf_views(out@);
    let mut i: usize = 0;
    assert(g.take(0) =~= Seq::<Seq<Leaf>>::empty());
    assert(start + g.take(0).flatten() =~= start);
    while i < entries.len()
        invariant
            i <= entries@.len(),
            g.len() == entries@.len(),
            forall|j: int|
                0 <= j < entries.len() ==> #[trigger] g[j] == leaves(
                    entries@[j].1,
                    join_key(prefix@, entries@[j].0@),
                ),
            leaf_views(out@) == start + g.take(i as int).flatten(),
        decreases entries@.len() - i,
    {
        let path = join(prefix, &entries[i].0);
        walk_item(&entries[i].1, path, out);
        proof {
            lemma_flatten_step(g, i as int);
        }
        i = i + 1;
    }
    assert(g.take(entries.len() as int) == g);
}

/// Collects the leaves of the elements of an array, each under `path[i]`.
fn walk_elements(items: &Vec<TomlNode>, path: &String, out: &mut Vec<(String, String)>)
    ensures
        leaf_views(final(out)@) == leaf_views(old(out)@) + element_leaves(*items, path@).flatten(),
    decreases items, 0nat,
{
    let ghost g = element_leaves(*items, path@);
    let ghost start = leaf_views(out@);
    let mut i: usize = 0;
    assert(g.take(0) =~= Seq::<Seq<Leaf>>::empty());
    assert(start + g.take(0).flatten() =~= start);
    while i < items.len()
        invariant
            i <= items@.len(),
            g.len() == items@.len(),
            forall|j: int|
                0 <= j < items.len() ==> #[trigger] g[j] == leaves(items@[j], index_key(path@, j as nat)),
            leaf_views(out@) == start + g.take(i as int).flatten(),
        decreases items@.len() - i,
    {
        let p = index_path(path, i);
        walk_item(&items[i], p, out);
        proof {
            lemma_flatten_step(g, i as int);
        }
        i = i + 1;
    }
    assert(g.take(items.len() as int) == g);
}

/// Collects the leaves under `node` at `path`.
fn walk_item(node: &TomlNode, path: String, out: &mut Vec<(String, String)>)
    ensures
        leaf_views(final(out)@) == leaf_views(old(out)@) + leaves(*node, path@),
    decreases node, 1nat,
{
    match node {
        TomlNode::Table { entries, .. } => walk_table(entries, &path, out),
        TomlNode::InlineTable { entries, .. } => walk_table(entries, &path, out),
        TomlNode::Array { items, .. } => walk_elements(items, &path, out),
        TomlNode::ArrayOfTables { tables, .. } => walk_elements(tables, &path, out),
        TomlNode::Str { value, .. } => {
            let ghost before = out@;
            out.push((path, value.clone()));
            assert(leaf_views(out@) =~= leaf_views(before) + leaves(*node, path@));
        },
        TomlNode::Bool { display, .. } => {
            let ghost before = out@;
            let text = trim_str(display.as_str());
            out.push((path, text));
            assert(leaf_views(out@) =~= leaf_views(before) + leaves(*node, path@));
        },
        TomlNode::Scalar { display } => {
            let ghost before = out@;
            let text = trim_str(display.as_str());
            out.push((path, text));
            assert(leaf_views(out@) =~= leaf_views(before) + leaves(*node, path@));
        },
    }
}

/// Every leaf of `doc` by its dotted path: strings by their content, other
/// scalars by their display, array elements as `path[i]`.
pub fn flatten_leaves(doc: &TomlNode) -> (r: SortedMap<String, String>)
    ensures
        r.wf(),
        r.map() == flat(*doc),
{
    let mut collected: Vec<(String, String)> = Vec::new();
    walk_item(doc, String::new(), &mut collected);
    assert(leaf_views(collected@) =~= leaves(*doc, Seq::empty()));
    let mut r: SortedMap<String, String> = SortedMap::new();
    let mut i: usize = 0;
    while i < collected.len()
        invariant
            i <= collected@.len(),
            r.wf(),
            r.map() == leaf_map(leaf_views(collected@).take(i as int)),
        decreases collected@.len() - i,
    {
        let (k, v) = (collected[i].0.clone(), collected[i].1.clone());
        r.insert(k, v);
        proof {
            let lv = leaf_views(collected@);
            assert(lv.take(i + 1).drop_last() == lv.take(i as int));
        }
        i = i + 1;
    }
    assert(leaf_views(collected@).take(collected.len() as int) == leaf_views(collected@));
    r
}


// ---------------------------------------------------------------------------
// Errors
// ---------------------------------------------------------------------------

/// Which side of a bump a lock file was read on.
#[derive(Debug, Clone, Copy, PartialEq, Eq)]
pub enum LockStage {
    Before,
    After,
}

/// Why a bump was refused.
#[derive(Debug)]
pub enum BumpError {
    /// The bump changed something it should not have, or missed something
    /// it should have changed; one line per finding, in path order.
    UnexpectedContent { file: String, problems: Vec<String> },
    /// A lock file did not parse.
    LockParse { file: String, stage: LockStage },
}

/// The message of an unexpected-content error.
pub open spec fn unexpected_content_message(file: Seq<char>, problems: Seq<Seq<char>>) -> Seq<char> {
    "version bump touched unexpected content in "@ + file + ":\n"@ + join_with(problems, "\n"@)
}

impl BumpError {
    /// The error's message.
    pub open spec fn message(&self) -> Seq<char> {
        match self {
            BumpError::UnexpectedContent { file, problems } => unexpected_content_message(
                file@,
                views(problems@),
            ),
            BumpError::LockParse { file, stage } => match stage {
                LockStage::Before => "failed to parse "@ + file@ + " before bump"@,
                LockStage::After => "failed to parse "@ + file@ + " after bump"@,
            },
        }
    }

    /// The error's message.
    pub fn to_string(&self) -> (r: String)
        ensures
            r@ == self.message(),
    {
        match self {
            BumpError::UnexpectedContent { file, problems } => {
                let mut r = owned("version bump touched unexpected content in ");
                r.append(file.as_str());
                r.append(":\n");
                let body = crate::utils::text::join_strings(problems, "\n");
                r.append(body.as_str());
                r
            },
            BumpError::LockParse { file, stage } => {
                let mut r = owned("failed to parse ");
                r.append(file.as_str());
                match stage {
                    LockStage::Before => r.append(" before bump"),
                    LockStage::After => r.append(" after bump"),
                }
                r
            },
        }
    }
}

// ---------------------------------------------------------------------------
// Checking a manifest
// ---------------------------------------------------------------------------

/// The single text of a one-part key or value of `m`, or empty when `k` is
/// absent.
pub open spec fn text_or_empty(m: Map<Seq<Seq<char>>, Seq<Seq<char>>>, k: Seq<Seq<char>>) -> Seq<char> {
    if m.contains_key(k) {
        m[k][0]
    } else {
        Seq::empty()
    }
}

/// Whether the leaf at `k` differs between `before` and `after` (present on
/// one side only, or with different text).
pub open spec fn differs(
    before: Map<Seq<Seq<char>>, Seq<Seq<char>>>,
    after: Map<Seq<Seq<char>>, Seq<Seq<char>>>,
    k: Seq<Seq<char>>,
) -> bool {
    before.contains_key(k) != after.contains_key(k) || (before.contains_key(k) && before[k]
        != after[k])
}

/// Every leaf that differs between `before` and `after`, mapped to its old
/// and new text (empty where absent).
pub open spec fn changes(
    before: Map<Seq<Seq<char>>, Seq<Seq<char>>>,
    after: Map<Seq<Seq<char>>, Seq<Seq<char>>>,
) -> Map<Seq<Seq<char>>, Seq<Seq<char>>> {
    Map::new(
        |k: Seq<Seq<char>>| differs(before, after, k),
        |k: Seq<Seq<char>>| seq![text_or_empty(before, k), text_or_empty(after, k)],
    )
}

/// `(a, b)` as `Debug` writes a pair of strings.
pub open spec fn pair_debug(pair: Seq<Seq<char>>) -> Seq<char> {
    "("@ + str_debug(pair[0]) + ", "@ + str_debug(pair[1]) + ")"@
}

/// The finding for a changed leaf `k` with old and new text `change`: none
/// if it was intended as is, else an unexpected or a wrong change.
pub open spec fn change_finding(
    k: Seq<Seq<char>>,
    change: Seq<Seq<char>>,
    intended: Map<Seq<Seq<char>>, Seq<Seq<char>>>,
) -> Seq<Seq<char>> {
    if !intended.contains_key(k) {
        seq![
            "  unexpected change at `"@ + k[0] + "`: "@ + str_debug(change[0]) + " -> "@
                + str_debug(change[1]),
        ]
    } else if intended[k] != change {
        seq![
            "  wrong change at `"@ + k[0] + "`: expected "@ + pair_debug(intended[k]) + ", got "@
                + pair_debug(change),
        ]
    } else {
        Seq::empty()
    }
}

/// The finding for an intended change at `k`: none if it happened.
pub open spec fn missed_finding(
    k: Seq<Seq<char>>,
    actual: Map<Seq<Seq<char>>, Seq<Seq<char>>>,
) -> Seq<Seq<char>> {
    if actual.contains_key(k) {
        Seq::empty()
    } else {
        seq!["  expected change at `"@ + k[0] + "` did not happen"@]
    }
}

/// All findings: for each actual change in path order, then for each
/// intended change in path order.
pub open spec fn change_findings(
    actual: Map<Seq<Seq<char>>, Seq<Seq<char>>>,
    intended: Map<Seq<Seq<char>>, Seq<Seq<char>>>,
) -> Seq<Seq<char>> {
    let ka = key_order(actual.dom());
    let ki = key_order(intended.dom());
    Seq::new(ka.len(), |i: int| change_finding(ka[i], actual[ka[i]], intended)).flatten() + Seq::new(
        ki.len(),
        |i: int| missed_finding(ki[i], actual),
    ).flatten()
}

proof fn lemma_flatten_take_step(g: Seq<Seq<Seq<char>>>, i: int)
    requires
        0 <= i < g.len(),
    ensures
        g.take(i + 1).flatten() == g.take(i).flatten() + g[i],
{
    assert(g.take(i + 1) == g.take(i).push(g[i]));
    g.take(i).lemma_flatten_push(g[i]);
}

/// Every leaf that differs between the two documents, with old and new text.
fn diff_leaves(before: &SortedMap<String, String>, after: &SortedMap<String, String>) -> (r:
    SortedMap<String, (String, String)>)
    requires
        before.wf(),
        after.wf(),
    ensures
        r.wf(),
        r.map() == changes(before.map(), after.map()),
{
    let ghost bm = before.map();
    let ghost am = after.map();
    let ghost be = before.entries();
    let ghost ae = after.entries();
    proof {
        lemma_entries_map(be);
        lemma_entries_map(ae);
    }
    let mut actual: SortedMap<String, (String, String)> = SortedMap::new();
    let mut i: usize = 0;
    while i < before.len()
        invariant
            before.wf(),
            after.wf(),
            actual.wf(),
            bm == before.map(),
            am == after.map(),
            be == before.entries(),
            i <= be.len(),
            forall|j: int| 0 <= j < be.len() ==> #[trigger] bm[be[j].0.parts()] == be[j].1.parts(),
            forall|k: Seq<Seq<char>>|
                #[trigger] bm.contains_key(k) <==> exists|j: int|
                    0 <= j < be.len() && #[trigger] be[j].0.parts() == k,
            actual.map() == Map::new(
                |k: Seq<Seq<char>>|
                    (exists|j: int| 0 <= j < i && #[trigger] be[j].0.parts() == k) && differs(
                        bm,
                        am,
                        k,
                    ),
                |k: Seq<Seq<char>>| seq![text_or_empty(bm, k), text_or_empty(am, k)],
            ),
        decreases be.len() - i,
    {
        let entry = before.entry(i);
        let ghost k = entry.0.parts();
        assert(bm.contains_key(k));
        match after.get(&entry.0) {
            None => {
                actual.insert(entry.0.clone(), (entry.1.clone(), String::new()));
            },
            Some(v) => {
                if !v.parts_eq(&entry.1) {
                    actual.insert(entry.0.clone(), (entry.1.clone(), v.clone()));
                }
            },
        }
        proof {
            let want = Map::new(
                |x: Seq<Seq<char>>|
                    (exists|j: int| 0 <= j < i + 1 && #[trigger] be[j].0.parts() == x) && differs(
                        bm,
                        am,
                        x,
                    ),
                |x: Seq<Seq<char>>| seq![text_or_empty(bm, x), text_or_empty(am, x)],
            );
            assert(be[i as int].0.parts() == k);
            assert forall|x: Seq<Seq<char>>| #[trigger]
                want.contains_key(x) == actual.map().contains_key(x) && (want.contains_key(x)
                    ==> want[x] == actual.map()[x]) by {
                if x != k {
                    if exists|j: int| 0 <= j < i + 1 && #[trigger] be[j].0.parts() == x {
                        let j = choose|j: int| 0 <= j < i + 1 && #[trigger] be[j].0.parts() == x;
                        assert(j < i);
                    }
                }
            }
            assert(actual.map() =~= want);
        }
        i = i + 1;
    }
    let ghost mid = actual.map();
    let mut j: usize = 0;
    while j < after.len()
        invariant
            before.wf(),
            after.wf(),
            actual.wf(),
            bm == before.map(),
            am == after.map(),
            ae == after.entries(),
            j <= ae.len(),
            forall|t: int| 0 <= t < ae.len() ==> #[trigger] am[ae[t].0.parts()] == ae[t].1.parts(),
            forall|k: Seq<Seq<char>>|
                #[trigger] am.contains_key(k) <==> exists|t: int|
                    0 <= t < ae.len() && #[trigger] ae[t].0.parts() == k,
            actual.map() == Map::new(
                |k: Seq<Seq<char>>|
                    (bm.contains_key(k) || exists|t: int|
                        0 <= t < j && #[trigger] ae[t].0.parts() == k) && differs(bm, am, k),
                |k: Seq<Seq<char>>| seq![text_or_empty(bm, k), text_or_empty(am, k)],
            ),
        decreases ae.len() - j,
    {
        let entry = after.entry(j);
        let ghost k = entry.0.parts();
        assert(am.contains_key(k));
        if !before.contains_key(&entry.0) {
            actual.insert(entry.0.clone(), (String::new(), entry.1.clone()));
        }
        proof {
            let want = Map::new(
                |x: Seq<Seq<char>>|
                    (bm.contains_key(x) || exists|t: int|
                        0 <= t < j + 1 && #[trigger] ae[t].0.parts() == x) && differs(bm, am, x),
                |x: Seq<Seq<char>>| seq![text_or_empty(bm, x), text_or_empty(am, x)],
            );
            assert(ae[j as int].0.parts() == k);
            assert forall|x: Seq<Seq<char>>| #[trigger]
                want.contains_key(x) == actual.map().contains_key(x) && (want.contains_key(x)
                    ==> want[x] == actual.map()[x]) by {
                if x != k {
                    if exists|t: int| 0 <= t < j + 1 && #[trigger] ae[t].0.parts() == x {
                        let t = choose|t: int| 0 <= t < j + 1 && #[trigger] ae[t].0.parts() == x;
                        assert(t < j);
                    }
                }
            }
            assert(actual.map() =~= want);
        }
        j = j + 1;
    }
    proof {
        assert forall|x: Seq<Seq<char>>| #[trigger]
            actual.map().contains_key(x) == changes(bm, am).contains_key(x) by {
            if differs(bm, am, x) && !bm.contains_key(x) {
                assert(am.contains_key(x));
                let t = choose|t: int| 0 <= t < ae.len() && #[trigger] ae[t].0.parts() == x;
            }
        }
        assert(actual.map() =~= changes(bm, am));
    }
    actual
}

/// `change_finding` for an entry, built.
fn change_finding_text(
    path: &String,
    change: &(String, String),
    intended: &SortedMap<String, (String, String)>,
) -> (r: Option<String>)
    requires
        intended.wf(),
    ensures
        change_finding(path.parts(), change.parts(), intended.map()) == (match r {
            Some(t) => seq![t@],
            None => Seq::<Seq<char>>::empty(),
        }),
{
    match intended.get(path) {
        None => {
            let mut r = owned("  unexpected change at `");
            r.append(path.as_str());
            r.append("`: ");
            r.append(debug_string(change.0.as_str()).as_str());
            r.append(" -> ");
            r.append(debug_string(change.1.as_str()).as_str());
            Some(r)
        },
        Some(expected) => {
            if expected.parts_eq(change) {
                None
            } else {
                let mut r = owned("  wrong change at `");
                r.append(path.as_str());
                r.append("`: expected ");
                r.append(pair_debug_text(expected).as_str());
                r.append(", got ");
                r.append(pair_debug_text(change).as_str());
                Some(r)
            }
        },
    }
}

/// `pair_debug`, built.
fn pair_debug_text(pair: &(String, String)) -> (r: String)
    ensures
        r@ == pair_debug(pair.parts()),
{
    let mut r = owned("(");
    r.append(debug_string(pair.0.as_str()).as_str());
    r.append(", ");
    r.append(debug_string(pair.1.as_str()).as_str());
    r.append(")");
    r
}

/// The findings that `change_findings` lists, built.
fn findings(
    actual: &SortedMap<String, (String, String)>,
    intended: &SortedMap<String, (String, String)>,
) -> (r: Vec<String>)
    requires
        actual.wf(),
        intended.wf(),
    ensures
        views(r@) == change_findings(actual.map(), intended.map()),
{
    let ghost am = actual.map();
    let ghost im = intended.map();
    let ghost ka = key_order(am.dom());
    let ghost ki = key_order(im.dom());
    proof {
        lemma_key_order(actual.entries());
        lemma_key_order(intended.entries());
        lemma_entries_map(actual.entries());
        lemma_entries_map(intended.entries());
    }
    let ghost g1 = Seq::new(ka.len(), |i: int| change_finding(ka[i], am[ka[i]], im));
    let ghost g2 = Seq::new(ki.len(), |i: int| missed_finding(ki[i], am));
    let mut r: Vec<String> = Vec::new();
    let mut i: usize = 0;
    assert(g1.take(0) =~= Seq::<Seq<Seq<char>>>::empty());
    assert(views(r@) =~= g1.take(0).flatten());
    while i < actual.len()
        invariant
            actual.wf(),
            intended.wf(),
            am == actual.map(),
            im == intended.map(),
            ka == entry_keys(actual.entries()),
            g1.len() == ka.len() == actual.entries().len(),
            forall|t: int| 0 <= t < ka.len() ==> #[trigger] g1[t] == change_finding(ka[t], am[ka[t]], im),
            forall|t: int|
                0 <= t < actual.entries().len() ==> #[trigger] am[actual.entries()[t].0.parts()]
                    == actual.entries()[t].1.parts(),
            i <= actual.entries().len(),
            views(r@) == g1.take(i as int).flatten(),
        decreases actual.entries().len() - i,
    {
        let entry = actual.entry(i);
        let found = change_finding_text(&entry.0, &entry.1, intended);
        let ghost before = r@;
        match found {
            Some(t) => {
                r.push(t);
            },
            None => {},
        }
        proof {
            assert(ka[i as int] == actual.entries()[i as int].0.parts());
            lemma_flatten_take_step(g1, i as int);
            assert(views(r@) =~= views(before) + g1[i as int]);
        }
        i = i + 1;
    }
    assert(g1.take(ka.len() as int) == g1);
    let ghost first = views(r@);
    let mut j: usize = 0;
    assert(g2.take(0) =~= Seq::<Seq<Seq<char>>>::empty());
    assert(views(r@) =~= first + g2.take(0).flatten());
    while j < intended.len()
        invariant
            actual.wf(),
            intended.wf(),
            am == actual.map(),
            im == intended.map(),
            ki == entry_keys(intended.entries()),
            g2.len() == ki.len() == intended.entries().len(),
            forall|t: int| 0 <= t < ki.len() ==> #[trigger] g2[t] == missed_finding(ki[t], am),
            j <= intended.entries().len(),
            views(r@) == first + g2.take(j as int).flatten(),
        decreases intended.entries().len() - j,
    {
        let entry = intended.entry(j);
        let ghost before = r@;
        if !actual.contains_key(&entry.0) {
            let mut t = owned("  expected change at `");
            t.append(entry.0.as_str());
            t.append("` did not happen");
            r.push(t);
        }
        proof {
            assert(ki[j as int] == intended.entries()[j as int].0.parts());
            lemma_flatten_take_step(g2, j as int);
            assert(views(r@) =~= views(before) + g2[j as int]);
        }
        j = j + 1;
    }
    assert(g2.take(ki.len() as int) == g2);
    r
}

/// Checks that going from `original` to `modified` changed exactly the
/// leaves that `intended` lists, each from its old to its new text. Layout,
/// comments and order do not count: documents are compared leaf by leaf.
pub fn verify_changes(
    original: &TomlNode,
    modified: &TomlNode,
    intended: &SortedMap<String, (String, String)>,
    file: &str,
) -> (r: Result<(), BumpError>)
    requires
        intended.wf(),
    ensures
        r is Ok <==> changes(flat(*original), flat(*modified)) == intended.map(),
        r matches Err(e) ==> e matches BumpError::UnexpectedContent { file: f, problems } && f@
            == file@ && views(problems@) == change_findings(
            changes(flat(*original), flat(*modified)),
            intended.map(),
        ),
{
    let before = flatten_leaves(original);
    let after = flatten_leaves(modified);
    let actual = diff_leaves(&before, &after);
    if actual.same_as(intended) {
        return Ok(());
    }
    let problems = findings(&actual, intended);
    Err(BumpError::UnexpectedContent { file: owned(file), problems })
}


// ---------------------------------------------------------------------------
// Which fields a bump may change
// ---------------------------------------------------------------------------

/// A character that may stand before the version in a pinning requirement.
pub open spec fn pin_char(c: char) -> bool {
    c == '=' || c == '^' || c == '~' || c == '>' || c == '<' || c == ' '
}

/// How many characters at the front of `s` are `pin_char`s.
pub open spec fn pin_prefix_len(s: Seq<char>) -> nat
    decreases s.len(),
{
    if s.len() > 0 && pin_char(s[0]) {
        1 + pin_prefix_len(s.drop_first())
    } else {
        0
    }
}

/// The requirement bumped from `current` to `new`: when what follows the
/// leading operator characters is `current` itself, the same operator with
/// `new`; otherwise nothing.
pub open spec fn bumped_requirement_spec(
    requirement: Seq<char>,
    current: Seq<char>,
    new: Seq<char>,
) -> Option<Seq<char>> {
    let k = pin_prefix_len(requirement) as int;
    if requirement.skip(k) == current {
        Some(requirement.take(k) + new)
    } else {
        None
    }
}

proof fn lemma_pin_prefix(s: Seq<char>, i: int)
    requires
        0 <= i <= s.len(),
        forall|j: int| 0 <= j < i ==> pin_char(#[trigger] s[j]),
        i == s.len() || !pin_char(s[i]),
    ensures
        pin_prefix_len(s) == i,
    decreases i,
{
    if i > 0 {
        lemma_pin_prefix(s.drop_first(), i - 1);
    }
}

/// Bumps a dependency requirement only when it pins `current` itself,
/// matching the version after any comparison operator. A requirement that
/// merely contains `current` (`=12.0.1` for `2.0.1`) or is a range is left
/// alone.
pub fn bumped_requirement(requirement: &str, current: &str, new: &str) -> (r: Option<String>)
    ensures
        r is Some == bumped_requirement_spec(requirement@, current@, new@) is Some,
        r matches Some(s) ==> bumped_requirement_spec(requirement@, current@, new@) == Some(s@),
{
    let cs = chars_of(requirement);
    let mut k: usize = 0;
    while k < cs.len() && (cs[k] == '=' || cs[k] == '^' || cs[k] == '~' || cs[k] == '>' || cs[k]
        == '<' || cs[k] == ' ')
        invariant
            k <= cs@.len(),
            cs@ == requirement@,
            forall|j: int| 0 <= j < k ==> pin_char(#[trigger] cs@[j]),
        decreases cs@.len() - k,
    {
        k = k + 1;
    }
    proof {
        lemma_pin_prefix(cs@, k as int);
    }
    let version = chars_between(&cs, k, cs.len());
    let current_chars = chars_of(current);
    if !chars_eq(version.as_slice(), current_chars.as_slice()) {
        return None;
    }
    let operator = chars_between(&cs, 0, k);
    let mut r = string_of(operator.as_slice());
    r.append(new);
    proof {
        assert(cs@.subrange(k as int, cs@.len() as int) == cs@.skip(k as int));
        assert(cs@.subrange(0, k as int) == cs@.take(k as int));
    }
    Some(r)
}

/// A target: a dotted path with its old and new text.
pub type Target = (Seq<char>, Seq<Seq<char>>);

/// The target for the exact version field at `path`: when it holds the
/// string `current`, it is to become `new`.
pub open spec fn exact_target(
    doc: TomlNode,
    path: Seq<Seq<char>>,
    current: Seq<char>,
    new: Seq<char>,
) -> Option<Target> {
    if path.len() > 0 && str_at(doc, path) == Some(current) {
        Some((join_with(path, "."@), seq![current, new]))
    } else {
        None
    }
}

/// `m` with the target `t` added, if there is one.
pub open spec fn with_target(m: Map<Seq<Seq<char>>, Seq<Seq<char>>>, t: Option<Target>) -> Map<
    Seq<Seq<char>>,
    Seq<Seq<char>>,
> {
    match t {
        Some(t) => m.insert(seq![t.0], t.1),
        None => m,
    }
}

/// The dotted path of a workspace dependency's version requirement.
pub open spec fn dependency_key(name: Seq<char>) -> Seq<char> {
    "workspace.dependencies."@ + name + ".version"@
}

/// The target for one workspace dependency entry: a member whose `version`
/// requirement pins `current`.
pub open spec fn dependency_target(
    entry: (String, TomlNode),
    names: Seq<Seq<char>>,
    current: Seq<char>,
    new: Seq<char>,
) -> Option<Target> {
    if names.contains(entry.0@) {
        match entry.1.get_spec("version"@) {
            Some(v) => match v.str_spec() {
                Some(req) => match bumped_requirement_spec(req, current, new) {
                    Some(b) => Some((dependency_key(entry.0@), seq![req, b])),
                    None => None,
                },
                None => None,
            },
            None => None,
        }
    } else {
        None
    }
}

/// `m` with the targets of the dependency entries added, in order.
pub open spec fn dependency_targets(
    entries: Seq<(String, TomlNode)>,
    names: Seq<Seq<char>>,
    current: Seq<char>,
    new: Seq<char>,
    m: Map<Seq<Seq<char>>, Seq<Seq<char>>>,
) -> Map<Seq<Seq<char>>, Seq<Seq<char>>>
    decreases entries.len(),
{
    if entries.len() == 0 {
        m
    } else {
        with_target(
            dependency_targets(entries.drop_last(), names, current, new, m),
            dependency_target(entries.last(), names, current, new),
        )
    }
}

/// Every version field of `doc` that a bump from `current` to `new` may
/// change, by dotted path: at a workspace root `workspace.package.version`;
/// in a member's manifest `package.version`; each when it holds `current`
/// itself. At a workspace root also the `version` of each
/// `[workspace.dependencies]` entry that names a member and pins `current`.
pub open spec fn targets_spec(
    manifest: Seq<char>,
    doc: TomlNode,
    members: WorkspaceMembers,
    current: Seq<char>,
    new: Seq<char>,
) -> Map<Seq<Seq<char>>, Seq<Seq<char>>> {
    let is_root = views(members.roots@).contains(manifest);
    let t1 = if is_root {
        with_target(
            Map::empty(),
            exact_target(doc, seq!["workspace"@, "package"@, "version"@], current, new),
        )
    } else {
        Map::empty()
    };
    let t2 = if views(members.manifests@).contains(manifest) {
        with_target(t1, exact_target(doc, seq!["package"@, "version"@], current, new))
    } else {
        t1
    };
    if is_root {
        match node_at(doc, seq!["workspace"@, "dependencies"@]) {
            Some(TomlNode::Table { entries, .. }) => dependency_targets(
                entries@,
                views(members.names@),
                current,
                new,
                t2,
            ),
            _ => t2,
        }
    } else {
        t2
    }
}

/// The node at `path`, key by key.
fn node_along<'a>(doc: &'a TomlNode, path: &Vec<String>) -> (r: Option<&'a TomlNode>)
    ensures
        r is Some == node_at(*doc, views(path@)) is Some,
        r matches Some(n) ==> node_at(*doc, views(path@)) == Some(*n),
{
    let mut node = doc;
    let mut i: usize = 0;
    assert(views(path@).skip(0) == views(path@));
    while i < path.len()
        invariant
            i <= path@.len(),
            node_at(*doc, views(path@)) == node_at(*node, views(path@).skip(i as int)),
        decreases path@.len() - i,
    {
        proof {
            let rest = views(path@).skip(i as int);
            assert(rest[0] == path@[i as int]@);
            assert(rest.drop_first() == views(path@).skip(i + 1));
        }
        match node.get(path[i].as_str()) {
            Some(n) => {
                node = n;
            },
            None => {
                return None;
            },
        }
        i = i + 1;
    }
    Some(node)
}

/// The target for the exact version field at `path`.
fn exact_version_target(doc: &TomlNode, path: &Vec<String>, current: &String, new: &String) -> (r:
    Option<(String, (String, String))>)
    ensures
        match exact_target(*doc, views(path@), current@, new@) {
            Some(t) => (r matches Some(x) && x.0@ == t.0 && x.1.parts() == t.1),
            None => r is None,
        },
{
    if path.len() == 0 {
        return None;
    }
    match node_along(doc, path) {
        Some(item) => match item.as_str() {
            Some(s) => {
                let same = s.parts_eq(current);
                assert(s.parts()[0] == s@ && current.parts()[0] == current@);
                assert(same == (s@ == current@)) by {
                    if s@ == current@ {
                        assert(s.parts() =~= current.parts());
                    }
                }
                if same {
                    let key = join_strings(path, ".");
                    Some((key, (current.clone(), new.clone())))
                } else {
                    None
                }
            },
            None => None,
        },
        None => None,
    }
}

/// Adds the target `t` to `targets`.
fn add_target(targets: &mut SortedMap<String, (String, String)>, t: Option<(String, (String, String))>)
    requires
        old(targets).wf(),
    ensures
        final(targets).wf(),
        final(targets).map() == match t {
            Some(x) => old(targets).map().insert(seq![x.0@], x.1.parts()),
            None => old(targets).map(),
        },
{
    match t {
        Some(x) => targets.insert(x.0, x.1),
        None => {},
    }
}

/// A vector of the given strings.
fn path_of(parts: &[&str]) -> (r: Vec<String>)
    ensures
        r@.len() == parts@.len(),
        forall|i: int| 0 <= i < parts@.len() ==> #[trigger] r@[i]@ == parts@[i]@,
{
    let mut r: Vec<String> = Vec::new();
    let mut i: usize = 0;
    while i < parts.len()
        invariant
            i <= parts@.len(),
            r@.len() == i,
            forall|j: int| 0 <= j < i ==> #[trigger] r@[j]@ == parts@[j]@,
        decreases parts@.len() - i,
    {
        r.push(owned(parts[i]));
        i = i + 1;
    }
    r
}

/// Every version field in `doc` (the manifest at the canonical path
/// `manifest`) that a bump from `current` to `new` may change, keyed by its
/// dotted leaf path, with its old and new text.
pub fn bump_targets(
    manifest: &str,
    doc: &TomlNode,
    members: &WorkspaceMembers,
    current: &Version,
    new: &Version,
) -> (r: SortedMap<String, (String, String)>)
    ensures
        r.wf(),
        r.map() == targets_spec(manifest@, *doc, *members, version_text(*current), version_text(*new)),
{
    let current = current.to_string();
    let new = new.to_string();
    let mut targets: SortedMap<String, (String, String)> = SortedMap::new();
    let is_root = members.is_root(manifest);
    let ws_path = path_of(&["workspace", "package", "version"]);
    assert(views(ws_path@) =~= seq!["workspace"@, "package"@, "version"@]);
    if is_root {
        let t = exact_version_target(doc, &ws_path, &current, &new);
        add_target(&mut targets, t);
    }
    let pkg_path = path_of(&["package", "version"]);
    assert(views(pkg_path@) =~= seq!["package"@, "version"@]);
    if members.contains_manifest(manifest) {
        let t = exact_version_target(doc, &pkg_path, &current, &new);
        add_target(&mut targets, t);
    }
    if is_root {
        let deps_path = path_of(&["workspace", "dependencies"]);
        assert(views(deps_path@) =~= seq!["workspace"@, "dependencies"@]);
        match node_along(doc, &deps_path) {
            Some(deps) => match deps.as_table() {
                Some(entries) => {
                    let ghost base = targets.map();
                    let mut i: usize = 0;
                    while i < entries.len()
                        invariant
                            i <= entries@.len(),
                            targets.wf(),
                            targets.map() == dependency_targets(
                                entries@.take(i as int),
                                views(members.names@),
                                current@,
                                new@,
                                base,
                            ),
                        decreases entries@.len() - i,
                    {
                        let t = dependency_version_target(&entries[i], members, &current, &new);
                        add_target(&mut targets, t);
                        proof {
                            assert(entries@.take(i + 1).drop_last() == entries@.take(i as int));
                        }
                        i = i + 1;
                    }
                    assert(entries@.take(entries@.len() as int) == entries@);
                },
                None => {},
            },
            None => {},
        }
    }
    targets
}

/// The target for one `[workspace.dependencies]` entry.
fn dependency_version_target(
    entry: &(String, TomlNode),
    members: &WorkspaceMembers,
    current: &String,
    new: &String,
) -> (r: Option<(String, (String, String))>)
    ensures
        match dependency_target(*entry, views(members.names@), current@, new@) {
            Some(t) => (r matches Some(x) && x.0@ == t.0 && x.1.parts() == t.1),
            None => r is None,
        },
{
    // A third-party dependency can share a version string with the
    // workspace, so only members are in scope.
    if !members.contains_name(entry.0.as_str()) {
        return None;
    }
    let requirement = match entry.1.get("version") {
        Some(v) => match v.as_str() {
            Some(s) => s,
            None => return None,
        },
        None => return None,
    };
    let bumped = match bumped_requirement(requirement.as_str(), current.as_str(), new.as_str()) {
        Some(b) => b,
        None => return None,
    };
    let mut key = owned("workspace.dependencies.");
    key.append(entry.0.as_str());
    key.append(".version");
    Some((key, (requirement.clone(), bumped)))
}


// ---------------------------------------------------------------------------
// Lock files
// ---------------------------------------------------------------------------

/// `s` with `x` placed before the first element it does not follow.
pub open spec fn insert_sorted(x: Seq<char>, s: Seq<Seq<char>>) -> Seq<Seq<char>>
    decreases s.len(),
{
    if s.len() == 0 {
        seq![x]
    } else if !lex_lt(s[0], x) {
        seq![x] + s
    } else {
        seq![s[0]] + insert_sorted(x, s.drop_first())
    }
}

/// `s` sorted in code point order (what `Vec<String>::sort` gives).
pub open spec fn sorted_texts(s: Seq<Seq<char>>) -> Seq<Seq<char>>
    decreases s.len(),
{
    if s.len() == 0 {
        Seq::empty()
    } else {
        insert_sorted(s.last(), sorted_texts(s.drop_last()))
    }
}

/// The `key=value` line of one field of a lock file package.
pub open spec fn field_line(entry: (String, TomlNode)) -> Seq<char> {
    entry.0@ + "="@ + trim(entry.1.display_spec()@)
}

/// The field lines of a package table, `name` and `version` left out, in
/// table order.
pub open spec fn field_lines(entries: Seq<(String, TomlNode)>) -> Seq<Seq<char>>
    decreases entries.len(),
{
    if entries.len() == 0 {
        Seq::empty()
    } else {
        let rest = field_lines(entries.drop_last());
        let e = entries.last();
        if e.0@ == "name"@ || e.0@ == "version"@ {
            rest
        } else {
            rest.push(field_line(e))
        }
    }
}

/// A package of a lock file: its name and version, and its other fields as
/// sorted `key=value` lines joined by newlines; nothing for a table lacking
/// a string `name` or `version`.
pub open spec fn lock_package(table: TomlNode) -> Option<(Seq<Seq<char>>, Seq<Seq<char>>)> {
    match (table.get_spec("name"@), table.get_spec("version"@)) {
        (Some(n), Some(v)) => match (n.str_spec(), v.str_spec()) {
            (Some(name), Some(version)) => match table.table_like() {
                Some(entries) => Some(
                    (seq![name, version], seq![join_with(sorted_texts(field_lines(entries)), "\n"@)]),
                ),
                None => None,
            },
            _ => None,
        },
        _ => None,
    }
}

/// The packages of the tables `tables`, a later one replacing an earlier one
/// of the same name and version.
pub open spec fn lock_packages_of(tables: Seq<TomlNode>) -> Map<Seq<Seq<char>>, Seq<Seq<char>>>
    decreases tables.len(),
{
    if tables.len() == 0 {
        Map::empty()
    } else {
        let m = lock_packages_of(tables.drop_last());
        match lock_package(tables.last()) {
            Some(p) => m.insert(p.0, p.1),
            None => m,
        }
    }
}

/// The packages of a lock file: its `[[package]]` tables.
pub open spec fn lock_packages(doc: TomlNode) -> Map<Seq<Seq<char>>, Seq<Seq<char>>> {
    match doc.get_spec("package"@) {
        Some(TomlNode::ArrayOfTables { tables, .. }) => lock_packages_of(tables@),
        _ => Map::empty(),
    }
}

proof fn lemma_insert_sorted_at(x: Seq<char>, s: Seq<Seq<char>>, j: int)
    requires
        0 <= j <= s.len(),
        forall|t: int| 0 <= t < j ==> lex_lt(#[trigger] s[t], x),
        j == s.len() || !lex_lt(s[j], x),
    ensures
        insert_sorted(x, s) == s.take(j) + seq![x] + s.skip(j),
    decreases j,
{
    if j == 0 {
        assert(s.take(0) + seq![x] + s.skip(0) =~= seq![x] + s);
        if s.len() == 0 {
            assert(seq![x] + s =~= seq![x]);
        }
    } else {
        lemma_insert_sorted_at(x, s.drop_first(), j - 1);
        assert(s.take(j) + seq![x] + s.skip(j) =~= seq![s[0]] + (s.drop_first().take(j - 1) + seq![x]
            + s.drop_first().skip(j - 1)));
    }
}

/// Inserts `x` into the sorted `v` as `insert_sorted` does.
fn insert_text(v: &mut Vec<String>, x: String)
    ensures
        views(final(v)@) == insert_sorted(x@, views(old(v)@)),
{
    let ghost s = views(v@);
    let mut j: usize = 0;
    while j < v.len() && v[j].parts_lt(&x)
        invariant
            j <= v@.len(),
            s == views(v@),
            forall|t: int| 0 <= t < j ==> lex_lt(#[trigger] s[t], x@),
        decreases v@.len() - j,
    {
        proof {
            crate::utils::ordmap::lemma_parts_lt_single(v@[j as int]@, x@);
        }
        j = j + 1;
    }
    proof {
        if j < v@.len() {
            crate::utils::ordmap::lemma_parts_lt_single(v@[j as int]@, x@);
        }
        lemma_insert_sorted_at(x@, s, j as int);
    }
    v.insert(j, x);
    assert(views(v@) =~= s.take(j as int) + seq![x@] + s.skip(j as int));
}

/// The lines of a package's fields, `name` and `version` left out.
fn package_fields(entries: &Vec<(String, TomlNode)>) -> (r: Vec<String>)
    ensures
        views(r@) == field_lines(entries@),
{
    let mut r: Vec<String> = Vec::new();
    let mut i: usize = 0;
    while i < entries.len()
        invariant
            i <= entries@.len(),
            views(r@) == field_lines(entries@.take(i as int)),
        decreases entries@.len() - i,
    {
        let key = &entries[i].0;
        proof {
            assert(entries@.take(i + 1).drop_last() == entries@.take(i as int));
            assert(entries@.take(i + 1).last() == entries@[i as int]);
        }
        let skip = crate::utils::text::str_eq(key.as_str(), "name") || crate::utils::text::str_eq(
            key.as_str(),
            "version",
        );
        if !skip {
            let mut line = key.clone();
            line.append("=");
            line.append(trim_str(entries[i].1.display().as_str()).as_str());
            let ghost before = r@;
            r.push(line);
            assert(views(r@) =~= views(before).push(field_line(entries@[i as int])));
        }
        i = i + 1;
    }
    assert(entries@.take(entries@.len() as int) == entries@);
    r
}

/// The sorted lines of `fields`.
fn sort_texts(fields: Vec<String>) -> (r: Vec<String>)
    ensures
        views(r@) == sorted_texts(views(fields@)),
{
    let mut r: Vec<String> = Vec::new();
    let mut i: usize = 0;
    while i < fields.len()
        invariant
            i <= fields@.len(),
            views(r@) == sorted_texts(views(fields@).take(i as int)),
        decreases fields@.len() - i,
    {
        proof {
            let t = views(fields@).take(i + 1);
            assert(t.drop_last() == views(fields@).take(i as int));
            assert(t.last() == fields@[i as int]@);
        }
        insert_text(&mut r, fields[i].clone());
        i = i + 1;
    }
    assert(views(fields@).take(fields@.len() as int) == views(fields@));
    r
}

/// The package a `[[package]]` table describes.
fn package_of(table: &TomlNode) -> (r: Option<((String, String), String)>)
    ensures
        match lock_package(*table) {
            Some(p) => (r matches Some(x) && x.0.parts() == p.0 && seq![x.1@] == p.1),
            None => r is None,
        },
{
    let name = match table.get("name") {
        Some(n) => n.as_str(),
        None => None,
    };
    let version = match table.get("version") {
        Some(v) => v.as_str(),
        None => None,
    };
    match (name, version) {
        (Some(name), Some(version)) => match table.as_table_like() {
            Some(entries) => {
                let fields = sort_texts(package_fields(entries));
                let body = join_strings(&fields, "\n");
                Some(((name.clone(), version.clone()), body))
            },
            None => None,
        },
        _ => None,
    }
}

/// The packages of a lock file, by name and version, each with its other
/// fields as sorted `key=value` lines.
pub fn parse_lock_packages(content: &str) -> (r: Result<SortedMap<(String, String), String>, TomlError>)
    ensures
        r matches Ok(m) ==> m.wf() && (toml_parse(content@) matches Ok(doc) && m.map() == lock_packages(
            doc,
        )),
        r matches Err(e) ==> toml_parse(content@) == crate::utils::toml::refused(e.message@),
{
    let doc = parse_document(content)?;
    let mut packages: SortedMap<(String, String), String> = SortedMap::new();
    match doc.get("package") {
        Some(item) => match item.as_array_of_tables() {
            Some(tables) => {
                let mut i: usize = 0;
                while i < tables.len()
                    invariant
                        i <= tables@.len(),
                        packages.wf(),
                        packages.map() == lock_packages_of(tables@.take(i as int)),
                    decreases tables@.len() - i,
                {
                    proof {
                        assert(tables@.take(i + 1).drop_last() == tables@.take(i as int));
                        assert(tables@.take(i + 1).last() == tables@[i as int]);
                    }
                    match package_of(&tables[i]) {
                        Some((key, body)) => packages.insert(key, body),
                        None => {},
                    }
                    i = i + 1;
                }
                assert(tables@.take(tables@.len() as int) == tables@);
            },
            None => {},
        },
        None => {},
    }
    Ok(packages)
}


/// The key a package of the old lock should have after the bump: a member
/// at `current` moves to `new`, everything else stays.
pub open spec fn renamed_key(
    k: Seq<Seq<char>>,
    members: Seq<Seq<char>>,
    current: Seq<char>,
    new: Seq<char>,
) -> Seq<Seq<char>> {
    if members.contains(k[0]) && k[1] == current {
        seq![k[0], new]
    } else {
        k
    }
}

/// The packages of `m` at the keys `keys`, inserted in order under their
/// renamed keys.
pub open spec fn renamed_packages(
    keys: Seq<Seq<Seq<char>>>,
    m: Map<Seq<Seq<char>>, Seq<Seq<char>>>,
    members: Seq<Seq<char>>,
    current: Seq<char>,
    new: Seq<char>,
) -> Map<Seq<Seq<char>>, Seq<Seq<char>>>
    decreases keys.len(),
{
    if keys.len() == 0 {
        Map::empty()
    } else {
        renamed_packages(keys.drop_last(), m, members, current, new).insert(
            renamed_key(keys.last(), members, current, new),
            m[keys.last()],
        )
    }
}

/// The lock we expect after a bump: the packages of `before`, walked in
/// order, each member at `current` moved to `new` with the rest of its entry
/// (source, checksum, dependency edges) unchanged, every other package as it
/// was.
pub open spec fn expected_packages(
    before: Map<Seq<Seq<char>>, Seq<Seq<char>>>,
    members: Seq<Seq<char>>,
    current: Seq<char>,
    new: Seq<char>,
) -> Map<Seq<Seq<char>>, Seq<Seq<char>>> {
    renamed_packages(key_order(before.dom()), before, members, current, new)
}

/// `name version` of a package key.
pub open spec fn package_label(k: Seq<Seq<char>>) -> Seq<char> {
    k[0] + " "@ + k[1]
}

/// The finding for one package key.
pub open spec fn package_finding(
    k: Seq<Seq<char>>,
    expected: Map<Seq<Seq<char>>, Seq<Seq<char>>>,
    after: Map<Seq<Seq<char>>, Seq<Seq<char>>>,
) -> Seq<Seq<char>> {
    if expected.contains_key(k) && after.contains_key(k) {
        if expected[k] != after[k] {
            seq!["  unexpected change to package `"@ + package_label(k) + "`"@]
        } else {
            Seq::empty()
        }
    } else if expected.contains_key(k) {
        seq!["  missing package `"@ + package_label(k) + "` after bump"@]
    } else if after.contains_key(k) {
        seq!["  unexpected package `"@ + package_label(k) + "`"@]
    } else {
        Seq::empty()
    }
}

/// The findings for every package of either lock, in key order.
pub open spec fn package_findings(
    expected: Map<Seq<Seq<char>>, Seq<Seq<char>>>,
    after: Map<Seq<Seq<char>>, Seq<Seq<char>>>,
) -> Seq<Seq<char>> {
    let ks = key_order(expected.dom().union(after.dom()));
    Seq::new(ks.len(), |i: int| package_finding(ks[i], expected, after)).flatten()
}

/// The packages of `before`, renamed as a bump should leave them.
fn expected_lock(
    before: &SortedMap<(String, String), String>,
    members: &Vec<String>,
    current: &String,
    new: &String,
) -> (r: SortedMap<(String, String), String>)
    requires
        before.wf(),
    ensures
        r.wf(),
        r.map() == expected_packages(before.map(), views(members@), current@, new@),
{
    let ghost ks = entry_keys(before.entries());
    proof {
        lemma_key_order(before.entries());
        lemma_entries_map(before.entries());
    }
    let mut expected: SortedMap<(String, String), String> = SortedMap::new();
    let mut i: usize = 0;
    while i < before.len()
        invariant
            before.wf(),
            expected.wf(),
            i <= before.entries().len(),
            ks == entry_keys(before.entries()),
            forall|t: int|
                0 <= t < before.entries().len() ==> #[trigger] before.map()[before.entries()[t].0.parts()]
                    == before.entries()[t].1.parts(),
            expected.map() == renamed_packages(
                ks.take(i as int),
                before.map(),
                views(members@),
                current@,
                new@,
            ),
        decreases before.entries().len() - i,
    {
        let entry = before.entry(i);
        let name = &entry.0.0;
        let version = &entry.0.1;
        let key = if contains_text(members, name.as_str()) && version.parts_eq(current) {
            (name.clone(), new.clone())
        } else {
            (name.clone(), version.clone())
        };
        proof {
            assert(ks.take(i + 1).drop_last() == ks.take(i as int));
            assert(ks.take(i + 1).last() == entry.0.parts());
            assert(version.parts()[0] == version@ && current.parts()[0] == current@);
            if version@ == current@ {
                assert(version.parts() =~= current.parts());
            }
            assert(key.parts() =~= renamed_key(entry.0.parts(), views(members@), current@, new@));
        }
        expected.insert(key, entry.1.clone());
        i = i + 1;
    }
    assert(ks.take(ks.len() as int) == ks);
    expected
}

/// Checks that a lock file changed across a bump exactly as it should: each
/// member package at `current` moved to `new`, and nothing else changed
/// (no other package's version, source, checksum or dependency edges).
pub fn verify_lock_changes(
    before: &str,
    after: &str,
    members: &Vec<String>,
    current: &Version,
    new: &Version,
    file: &str,
) -> (r: Result<(), BumpError>)
    ensures
        toml_parse(before@) is Err ==> (r matches Err(e) && e matches BumpError::LockParse {
            file: f,
            stage: LockStage::Before,
        } && f@ == file@),
        toml_parse(before@) is Ok && toml_parse(after@) is Err ==> (r matches Err(e) && e matches BumpError::LockParse {
            file: f,
            stage: LockStage::After,
        } && f@ == file@),
        toml_parse(before@) matches Ok(b) ==> (toml_parse(after@) matches Ok(a) ==> {
            let expected = expected_packages(
                lock_packages(b),
                views(members@),
                version_text(*current),
                version_text(*new),
            );
            &&& r is Ok <==> expected == lock_packages(a)
            &&& r matches Err(e) ==> (e matches BumpError::UnexpectedContent { file: f, problems }
                && f@ == file@ && views(problems@) == package_findings(expected, lock_packages(a)))
        }),
{
    let before_pkgs = match parse_lock_packages(before) {
        Ok(p) => p,
        Err(_) => return Err(BumpError::LockParse { file: owned(file), stage: LockStage::Before }),
    };
    let after_pkgs = match parse_lock_packages(after) {
        Ok(p) => p,
        Err(_) => return Err(BumpError::LockParse { file: owned(file), stage: LockStage::After }),
    };
    let current = current.to_string();
    let new = new.to_string();
    let expected = expected_lock(&before_pkgs, members, &current, &new);
    if expected.same_as(&after_pkgs) {
        return Ok(());
    }
    let problems = package_problems(&expected, &after_pkgs);
    Err(BumpError::UnexpectedContent { file: owned(file), problems })
}

/// The keys of both maps.
fn key_union(
    a: &SortedMap<(String, String), String>,
    b: &SortedMap<(String, String), String>,
) -> (r: SortedMap<(String, String), ()>)
    requires
        a.wf(),
        b.wf(),
    ensures
        r.wf(),
        r.map().dom() == a.map().dom().union(b.map().dom()),
{
    proof {
        lemma_entries_map(a.entries());
        lemma_entries_map(b.entries());
    }
    let mut r: SortedMap<(String, String), ()> = SortedMap::new();
    let mut i: usize = 0;
    while i < a.len()
        invariant
            a.wf(),
            r.wf(),
            i <= a.entries().len(),
            forall|k: Seq<Seq<char>>|
                #[trigger] r.map().contains_key(k) <==> exists|t: int|
                    0 <= t < i && #[trigger] a.entries()[t].0.parts() == k,
        decreases a.entries().len() - i,
    {
        let entry = a.entry(i);
        r.insert((entry.0.0.clone(), entry.0.1.clone()), ());
        proof {
            assert forall|k: Seq<Seq<char>>| #[trigger] r.map().contains_key(k) <==> exists|t: int|
                0 <= t < i + 1 && #[trigger] a.entries()[t].0.parts() == k by {
                if exists|t: int| 0 <= t < i + 1 && #[trigger] a.entries()[t].0.parts() == k {
                    let t = choose|t: int| 0 <= t < i + 1 && #[trigger] a.entries()[t].0.parts() == k;
                    if t < i {
                    }
                }
            }
        }
        i = i + 1;
    }
    let mut j: usize = 0;
    while j < b.len()
        invariant
            a.wf(),
            b.wf(),
            r.wf(),
            j <= b.entries().len(),
            forall|k: Seq<Seq<char>>|
                #[trigger] r.map().contains_key(k) <==> (exists|t: int|
                    0 <= t < a.entries().len() && #[trigger] a.entries()[t].0.parts() == k) || (exists|t: int|
                    0 <= t < j && #[trigger] b.entries()[t].0.parts() == k),
        decreases b.entries().len() - j,
    {
        let entry = b.entry(j);
        r.insert((entry.0.0.clone(), entry.0.1.clone()), ());
        proof {
            assert forall|k: Seq<Seq<char>>| #[trigger] r.map().contains_key(k) <==> (exists|t: int|
                0 <= t < a.entries().len() && #[trigger] a.entries()[t].0.parts() == k) || (exists|t: int|
                0 <= t < j + 1 && #[trigger] b.entries()[t].0.parts() == k) by {
                if exists|t: int| 0 <= t < j + 1 && #[trigger] b.entries()[t].0.parts() == k {
                    let t = choose|t: int| 0 <= t < j + 1 && #[trigger] b.entries()[t].0.parts() == k;
                    if t < j {
                    }
                }
            }
        }
        j = j + 1;
    }
    assert(r.map().dom() =~= a.map().dom().union(b.map().dom()));
    r
}

/// The findings that `package_findings` lists, built.
fn package_problems(
    expected: &SortedMap<(String, String), String>,
    after: &SortedMap<(String, String), String>,
) -> (r: Vec<String>)
    requires
        expected.wf(),
        after.wf(),
    ensures
        views(r@) == package_findings(expected.map(), after.map()),
{
    let keys = key_union(expected, after);
    let ghost ks = key_order(expected.map().dom().union(after.map().dom()));
    proof {
        lemma_key_order(keys.entries());
    }
    let ghost g = Seq::new(ks.len(), |i: int| package_finding(ks[i], expected.map(), after.map()));
    let mut r: Vec<String> = Vec::new();
    let mut i: usize = 0;
    assert(g.take(0) =~= Seq::<Seq<Seq<char>>>::empty());
    assert(views(r@) =~= g.take(0).flatten());
    while i < keys.len()
        invariant
            expected.wf(),
            after.wf(),
            keys.wf(),
            ks == entry_keys(keys.entries()),
            g.len() == ks.len() == keys.entries().len(),
            forall|t: int|
                0 <= t < ks.len() ==> #[trigger] g[t] == package_finding(
                    ks[t],
                    expected.map(),
                    after.map(),
                ),
            i <= keys.entries().len(),
            views(r@) == g.take(i as int).flatten(),
        decreases keys.entries().len() - i,
    {
        let key = &keys.entry(i).0;
        let ghost k = key.parts();
        assert(ks[i as int] == k);
        let ghost before = r@;
        let mut label = key.0.clone();
        label.append(" ");
        label.append(key.1.as_str());
        match (expected.get(key), after.get(key)) {
            (Some(want), Some(got)) => {
                if !want.parts_eq(got) {
                    let mut t = owned("  unexpected change to package `");
                    t.append(label.as_str());
                    t.append("`");
                    r.push(t);
                }
            },
            (Some(_), None) => {
                let mut t = owned("  missing package `");
                t.append(label.as_str());
                t.append("` after bump");
                r.push(t);
            },
            (None, Some(_)) => {
                let mut t = owned("  unexpected package `");
                t.append(label.as_str());
                t.append("`");
                r.push(t);
            },
            (None, None) => {},
        }
        proof {
            lemma_flatten_take_step(g, i as int);
            assert(views(r@) =~= views(before) + g[i as int]);
        }
        i = i + 1;
    }
    assert(g.take(ks.len() as int) == g);
    r
}

} // verus!

verus! {

// ---------------------------------------------------------------------------
// Laws
// ---------------------------------------------------------------------------

proof fn lemma_pin_prefix_chars(s: Seq<char>)
    ensures
        pin_prefix_len(s) <= s.len(),
        forall|j: int| 0 <= j < pin_prefix_len(s) ==> pin_char(#[trigger] s[j]),
        pin_prefix_len(s) == s.len() || !pin_char(s[pin_prefix_len(s) as int]),
    decreases s.len(),
{
    if s.len() > 0 && pin_char(s[0]) {
        lemma_pin_prefix_chars(s.drop_first());
        assert forall|j: int| 0 <= j < pin_prefix_len(s) implies pin_char(#[trigger] s[j]) by {
            if j > 0 {
                assert(s[j] == s.drop_first()[j - 1]);
            }
        }
        if pin_prefix_len(s) < s.len() {
            assert(s[pin_prefix_len(s) as int] == s.drop_first()[pin_prefix_len(s.drop_first()) as int]);
        }
    }
}

/// A requirement that pins `current` behind operator characters (`=`,
/// `^`, `~`, `>`, `<`, space) is bumped to the same operators before `new`:
/// `=1.2.3` becomes `=1.2.4`, `^1.2.3` becomes `^1.2.4`.
pub proof fn pinned_requirement_is_bumped(op: Seq<char>, current: Seq<char>, new: Seq<char>)
    requires
        forall|j: int| 0 <= j < op.len() ==> pin_char(#[trigger] op[j]),
        current.len() == 0 || !pin_char(current[0]),
    ensures
        bumped_requirement_spec(op + current, current, new) == Some(op + new),
{
    let s = op + current;
    assert forall|j: int| 0 <= j < op.len() implies pin_char(#[trigger] s[j]) by {
        assert(s[j] == op[j]);
    }
    if current.len() > 0 {
        assert(s[op.len() as int] == current[0]);
    }
    lemma_pin_prefix(s, op.len() as int);
    assert(s.skip(op.len() as int) =~= current);
    assert(s.take(op.len() as int) =~= op);
}

/// Only pins are bumped: a requirement that `bumped_requirement` changes is
/// operator characters followed by `current` itself, and it becomes the
/// same operators followed by `new`.
pub proof fn only_pins_are_bumped(requirement: Seq<char>, current: Seq<char>, new: Seq<char>)
    requires
        bumped_requirement_spec(requirement, current, new) is Some,
    ensures
        exists|op: Seq<char>|
            (forall|j: int| 0 <= j < op.len() ==> pin_char(#[trigger] op[j])) && requirement == op
                + current && bumped_requirement_spec(requirement, current, new) == Some(op + new),
{
    lemma_pin_prefix_chars(requirement);
    let k = pin_prefix_len(requirement) as int;
    let op = requirement.take(k);
    assert(forall|j: int| 0 <= j < op.len() ==> pin_char(#[trigger] op[j]) == pin_char(requirement[j]));
    assert(requirement =~= op + current);
}

/// What the bump from `current` to `new` did to a requirement, the bump from
/// `new` back to `current` undoes (versions start with a digit, so `new`
/// does not start with an operator character).
pub proof fn bumped_requirement_round_trip(requirement: Seq<char>, current: Seq<char>, new: Seq<char>)
    requires
        bumped_requirement_spec(requirement, current, new) is Some,
        new.len() == 0 || !pin_char(new[0]),
    ensures
        bumped_requirement_spec(
            bumped_requirement_spec(requirement, current, new)->Some_0,
            new,
            current,
        ) == Some(requirement),
{
    lemma_pin_prefix_chars(requirement);
    let k = pin_prefix_len(requirement) as int;
    let op = requirement.take(k);
    assert forall|j: int| 0 <= j < op.len() implies pin_char(#[trigger] op[j]) by {
        assert(op[j] == requirement[j]);
    }
    pinned_requirement_is_bumped(op, new, current);
    assert(op + requirement.skip(k) =~= requirement);
}

/// Leaves compared with themselves show no change: documents whose leaves
/// agree (whatever their layout and comments) differ in nothing that
/// `verify_changes` reports.
pub proof fn same_leaves_change_nothing(original: TomlNode, modified: TomlNode)
    requires
        flat(original) == flat(modified),
    ensures
        changes(flat(original), flat(modified)) == Map::<Seq<Seq<char>>, Seq<Seq<char>>>::empty(),
{
    assert(changes(flat(original), flat(modified)) =~= Map::<Seq<Seq<char>>, Seq<Seq<char>>>::empty());
}

/// Whether `(k, v)` is a version field a bump from `current` to `new` may
/// change: the workspace or package version holding `current`, becoming
/// `new`; or the `version` of a `[workspace.dependencies]` entry naming a
/// member, whose pin of `current` becomes a pin of `new`.
pub open spec fn version_field_change(
    k: Seq<Seq<char>>,
    v: Seq<Seq<char>>,
    names: Seq<Seq<char>>,
    current: Seq<char>,
    new: Seq<char>,
) -> bool {
    ||| (k == seq![join_with(seq!["workspace"@, "package"@, "version"@], "."@)] && v == seq![
        current,
        new,
    ])
    ||| (k == seq![join_with(seq!["package"@, "version"@], "."@)] && v == seq![current, new])
    ||| exists|name: Seq<char>|
        names.contains(name) && k == seq![dependency_key(name)] && #[trigger] bumped_requirement_spec(
            v[0],
            current,
            new,
        ) == Some(v[1]) && v.len() == 2
}

proof fn lemma_dependency_targets_fields(
    entries: Seq<(String, TomlNode)>,
    names: Seq<Seq<char>>,
    current: Seq<char>,
    new: Seq<char>,
    m: Map<Seq<Seq<char>>, Seq<Seq<char>>>,
)
    requires
        forall|k| #[trigger] m.contains_key(k) ==> version_field_change(k, m[k], names, current, new),
    ensures
        forall|k| #[trigger] dependency_targets(entries, names, current, new, m).contains_key(k)
            ==> version_field_change(
            k,
            dependency_targets(entries, names, current, new, m)[k],
            names,
            current,
            new,
        ),
    decreases entries.len(),
{
    if entries.len() > 0 {
        lemma_dependency_targets_fields(entries.drop_last(), names, current, new, m);
        let e = entries.last();
        let prev = dependency_targets(entries.drop_last(), names, current, new, m);
        match dependency_target(e, names, current, new) {
            Some(t) => {
                let res = prev.insert(seq![t.0], t.1);
                assert(dependency_targets(entries, names, current, new, m) == res);
                let v = e.1.get_spec("version"@)->Some_0;
                let req = v.str_spec()->Some_0;
                let b = bumped_requirement_spec(req, current, new)->Some_0;
                assert(t == (dependency_key(e.0@), seq![req, b]));
                assert(version_field_change(seq![t.0], t.1, names, current, new)) by {
                    assert(t.1[0] == req && t.1[1] == b);
                    assert(names.contains(e.0@) && seq![t.0] == seq![dependency_key(e.0@)]
                        && bumped_requirement_spec(t.1[0], current, new) == Some(t.1[1]));
                }
                assert forall|k| #[trigger] res.contains_key(k) implies version_field_change(
                    k,
                    res[k],
                    names,
                    current,
                    new,
                ) by {
                    if k != seq![t.0] {
                        assert(prev.contains_key(k));
                    }
                }
            },
            None => {
                assert(dependency_targets(entries, names, current, new, m) == prev);
            },
        }
    }
}

/// A bump only touches version fields: every target of `bump_targets` is
/// the workspace version, the package version, or the version requirement
/// of a member in `[workspace.dependencies]`, with its old and new text as
/// `version_field_change` describes; third-party dependencies and
/// requirements that do not pin `current` are never targets.
pub proof fn bump_targets_are_version_fields(
    manifest: Seq<char>,
    doc: TomlNode,
    members: WorkspaceMembers,
    current: Seq<char>,
    new: Seq<char>,
)
    ensures
        forall|k| #[trigger] targets_spec(manifest, doc, members, current, new).contains_key(k)
            ==> version_field_change(
            k,
            targets_spec(manifest, doc, members, current, new)[k],
            views(members.names@),
            current,
            new,
        ),
{
    let names = views(members.names@);
    let is_root = views(members.roots@).contains(manifest);
    let t1 = if is_root {
        with_target(
            Map::empty(),
            exact_target(doc, seq!["workspace"@, "package"@, "version"@], current, new),
        )
    } else {
        Map::empty()
    };
    let t2 = if views(members.manifests@).contains(manifest) {
        with_target(t1, exact_target(doc, seq!["package"@, "version"@], current, new))
    } else {
        t1
    };
    assert(forall|k| #[trigger] t2.contains_key(k) ==> version_field_change(k, t2[k], names, current, new));
    if is_root {
        match node_at(doc, seq!["workspace"@, "dependencies"@]) {
            Some(TomlNode::Table { entries, .. }) => {
                lemma_dependency_targets_fields(entries@, names, current, new, t2);
            },
            _ => {},
        }
    }
}

proof fn lemma_kept_prefix(
    s: Seq<((String, String), String)>,
    members: Seq<Seq<char>>,
    current: Seq<char>,
    new: Seq<char>,
    i: int,
)
    requires
        0 <= i <= s.len(),
        keys_increasing(s),
        forall|j: int|
            0 <= j < s.len() ==> !(members.contains((#[trigger] s[j]).0.0@) && s[j].0.1@ == current),
    ensures
        renamed_packages(entry_keys(s).take(i), entries_map(s), members, current, new)
            == entries_map(s.take(i)),
    decreases i,
{
    let m = entries_map(s);
    let ks = entry_keys(s);
    if i == 0 {
        assert(renamed_packages(ks.take(0), m, members, current, new) =~= entries_map(s.take(0)));
    } else {
        lemma_kept_prefix(s, members, current, new, i - 1);
        lemma_entries_map(s);
        let j = i - 1;
        assert(ks.take(i).drop_last() == ks.take(j));
        assert(ks.take(i).last() == s[j].0.parts());
        assert(s.take(i).drop_last() == s.take(j));
        assert(s.take(i).last() == s[j]);
        assert(m[s[j].0.parts()] == s[j].1.parts());
        assert(renamed_key(s[j].0.parts(), members, current, new) == s[j].0.parts()) by {
            assert(s[j].0.parts()[0] == s[j].0.0@ && s[j].0.parts()[1] == s[j].0.1@);
        }
    }
}

/// A lock file in which no workspace crate sits at `current` is expected to
/// stay exactly as it was: the packages of `s` (a lock's packages in key
/// order, as `parse_lock_packages` gives them) are their own expected
/// packages.
pub proof fn lock_without_bumped_members_is_kept(
    s: Seq<((String, String), String)>,
    members: Seq<Seq<char>>,
    current: Seq<char>,
    new: Seq<char>,
)
    requires
        keys_increasing(s),
        forall|j: int|
            0 <= j < s.len() ==> !(members.contains((#[trigger] s[j]).0.0@) && s[j].0.1@ == current),
    ensures
        expected_packages(entries_map(s), members, current, new) == entries_map(s),
{
    lemma_key_order(s);
    lemma_kept_prefix(s, members, current, new, s.len() as int);
    assert(entry_keys(s).take(s.len() as int) == entry_keys(s));
    assert(s.take(s.len() as int) == s);
}

proof fn lemma_renamed_packages(
    ks: Seq<Seq<Seq<char>>>,
    m: Map<Seq<Seq<char>>, Seq<Seq<char>>>,
    members: Seq<Seq<char>>,
    current: Seq<char>,
    new: Seq<char>,
    i: int,
)
    requires
        0 <= i <= ks.len(),
    ensures
        forall|k| #[trigger]
            renamed_packages(ks.take(i), m, members, current, new).contains_key(k) <==> exists|t: int|
                0 <= t < i && renamed_key(ks[t], members, current, new) == k,
        forall|t: int|
            0 <= t < i && (forall|u: int|
                t < u < i ==> renamed_key(ks[u], members, current, new) != renamed_key(
                    ks[t],
                    members,
                    current,
                    new,
                )) ==> #[trigger] renamed_packages(ks.take(i), m, members, current, new)[renamed_key(
                ks[t],
                members,
                current,
                new,
            )] == m[ks[t]],
    decreases i,
{
    if i > 0 {
        lemma_renamed_packages(ks, m, members, current, new, i - 1);
        assert(ks.take(i).drop_last() == ks.take(i - 1));
        assert(ks.take(i).last() == ks[i - 1]);
        let prev = renamed_packages(ks.take(i - 1), m, members, current, new);
        let now = renamed_packages(ks.take(i), m, members, current, new);
        let last = renamed_key(ks[i - 1], members, current, new);
        assert(now == prev.insert(last, m[ks[i - 1]]));
        assert forall|k| #[trigger] now.contains_key(k) <==> exists|t: int|
            0 <= t < i && renamed_key(ks[t], members, current, new) == k by {
            if now.contains_key(k) && k != last {
                assert(prev.contains_key(k));
            }
            if exists|t: int| 0 <= t < i && renamed_key(ks[t], members, current, new) == k {
                let t = choose|t: int| 0 <= t < i && renamed_key(ks[t], members, current, new) == k;
                if t < i - 1 {
                    assert(prev.contains_key(k));
                }
            }
        }
    } else {
        assert(renamed_packages(ks.take(0), m, members, current, new) == Map::<
            Seq<Seq<char>>,
            Seq<Seq<char>>,
        >::empty()) by {
            assert(ks.take(0).len() == 0);
        }
    }
}

/// What a bump should do to a lock file's packages (`s`, in key order, as
/// `parse_lock_packages` gives them): a workspace crate locked at `current`
/// moves to `new` with the rest of its entry unchanged, and is no longer
/// expected at `current`; any other package is expected exactly as it was,
/// unless a moved crate lands on its name and version.
pub proof fn bump_moves_members_and_keeps_the_rest(
    s: Seq<((String, String), String)>,
    members: Seq<Seq<char>>,
    current: Seq<char>,
    new: Seq<char>,
    j: int,
)
    requires
        keys_increasing(s),
        0 <= j < s.len(),
        current != new,
    ensures
        ({
            let expected = expected_packages(entries_map(s), members, current, new);
            let name = s[j].0.0@;
            &&& members.contains(name) && s[j].0.1@ == current && (forall|i: int|
                0 <= i < s.len() ==> (#[trigger] s[i]).0.parts() != seq![name, new]) ==> {
                &&& expected.contains_key(seq![name, new])
                &&& expected[seq![name, new]] == s[j].1.parts()
                &&& !expected.contains_key(seq![name, current])
            }
            &&& !(members.contains(name) && s[j].0.1@ == current) && (forall|i: int|
                0 <= i < s.len() ==> !(members.contains((#[trigger] s[i]).0.0@) && s[i].0.1@
                    == current && seq![s[i].0.0@, new] == s[j].0.parts())) ==> {
                &&& expected.contains_key(s[j].0.parts())
                &&& expected[s[j].0.parts()] == s[j].1.parts()
            }
        }),
{
    let m = entries_map(s);
    let ks = entry_keys(s);
    lemma_key_order(s);
    lemma_entries_map(s);
    lemma_renamed_packages(ks, m, members, current, new, s.len() as int);
    assert(ks.take(s.len() as int) == ks);
    let expected = expected_packages(m, members, current, new);
    assert(expected == renamed_packages(ks.take(s.len() as int), m, members, current, new));
    let name = s[j].0.0@;
    assert(ks[j] == s[j].0.parts());
    assert(s[j].0.parts() == seq![s[j].0.0@, s[j].0.1@]);
    assert forall|u: int| 0 <= u < s.len() implies #[trigger] ks[u] == seq![s[u].0.0@, s[u].0.1@] by {
        assert(ks[u] == s[u].0.parts());
    }
    if members.contains(name) && s[j].0.1@ == current && (forall|i: int|
        0 <= i < s.len() ==> (#[trigger] s[i]).0.parts() != seq![name, new]) {
        let target = seq![name, new];
        assert(renamed_key(ks[j], members, current, new) == target);
        assert forall|u: int| j < u < s.len() implies renamed_key(ks[u], members, current, new)
            != renamed_key(ks[j], members, current, new) by {
            if renamed_key(ks[u], members, current, new) == target {
                if members.contains(ks[u][0]) && ks[u][1] == current {
                    assert(ks[u][0] == name);
                    assert(ks[u] =~= ks[j]);
                    assert(parts_lt(s[j].0.parts(), s[u].0.parts()));
                    crate::utils::ordmap::lemma_parts_lt_irreflexive(s[j].0.parts());
                } else {
                    assert(s[u].0.parts() == target);
                }
            }
        }
        assert(m[ks[j]] == s[j].1.parts());
        assert(!expected.contains_key(seq![name, current])) by {
            if expected.contains_key(seq![name, current]) {
                let t = choose|t: int|
                    0 <= t < s.len() && renamed_key(ks[t], members, current, new) == seq![
                        name,
                        current,
                    ];
                if members.contains(ks[t][0]) && ks[t][1] == current {
                    assert(seq![ks[t][0], new][1] == new);
                } else {
                    assert(ks[t] == seq![name, current]);
                    assert(ks[t][0] == name && ks[t][1] == current);
                }
            }
        }
    }
    if !(members.contains(name) && s[j].0.1@ == current) && (forall|i: int|
        0 <= i < s.len() ==> !(members.contains((#[trigger] s[i]).0.0@) && s[i].0.1@ == current
            && seq![s[i].0.0@, new] == s[j].0.parts())) {
        assert(renamed_key(ks[j], members, current, new) == ks[j]);
        assert forall|u: int| j < u < s.len() implies renamed_key(ks[u], members, current, new)
            != renamed_key(ks[j], members, current, new) by {
            if members.contains(ks[u][0]) && ks[u][1] == current {
                assert(renamed_key(ks[u], members, current, new) == seq![s[u].0.0@, new]);
            } else {
                assert(parts_lt(s[j].0.parts(), s[u].0.parts()));
                crate::utils::ordmap::lemma_parts_lt_irreflexive(s[j].0.parts());
            }
        }
        assert(m[ks[j]] == s[j].1.parts());
    }
}

proof fn lemma_leaf_map_finite(ls: Seq<Leaf>)
    ensures
        leaf_map(ls).dom().finite(),
    decreases ls.len(),
{
    if ls.len() > 0 {
        lemma_leaf_map_finite(ls.drop_last());
    }
}

proof fn lemma_changes_finite(before: Map<Seq<Seq<char>>, Seq<Seq<char>>>, after: Map<Seq<Seq<char>>, Seq<Seq<char>>>)
    requires
        before.dom().finite(),
        after.dom().finite(),
    ensures
        changes(before, after).dom().finite(),
{
    let u = before.dom().union(after.dom());
    assert(changes(before, after).dom().subset_of(u));
    vstd::set_lib::lemma_len_subset(changes(before, after).dom(), u);
}

proof fn lemma_flatten_nonempty(g: Seq<Seq<Seq<char>>>, i: int)
    requires
        0 <= i < g.len(),
        g[i].len() > 0,
    ensures
        g.flatten().len() > 0,
{
    g.lemma_flatten_length_ge_single_element_length(i);
    g.lemma_flatten_and_flatten_alt_are_equivalent();
}

/// Whether `k` changed other than intended.
pub open spec fn unintended_change(
    k: Seq<Seq<char>>,
    actual: Map<Seq<Seq<char>>, Seq<Seq<char>>>,
    intended: Map<Seq<Seq<char>>, Seq<Seq<char>>>,
) -> bool {
    actual.contains_key(k) && (!intended.contains_key(k) || intended[k] != actual[k])
}

/// Whether the intended change at `k` did not happen.
pub open spec fn missed_change(
    k: Seq<Seq<char>>,
    actual: Map<Seq<Seq<char>>, Seq<Seq<char>>>,
    intended: Map<Seq<Seq<char>>, Seq<Seq<char>>>,
) -> bool {
    intended.contains_key(k) && !actual.contains_key(k)
}

/// A manifest check that refuses always says why: when the changes between
/// the documents are not the intended ones, there is at least one finding.
pub proof fn refusal_names_a_finding(
    original: TomlNode,
    modified: TomlNode,
    intended: Map<Seq<Seq<char>>, Seq<Seq<char>>>,
)
    requires
        intended.dom().finite(),
        changes(flat(original), flat(modified)) != intended,
    ensures
        change_findings(changes(flat(original), flat(modified)), intended).len() > 0,
{
    let actual = changes(flat(original), flat(modified));
    lemma_leaf_map_finite(leaves(original, Seq::empty()));
    lemma_leaf_map_finite(leaves(modified, Seq::empty()));
    lemma_changes_finite(flat(original), flat(modified));
    crate::utils::ordmap::lemma_key_order_exists(actual.dom());
    crate::utils::ordmap::lemma_key_order_exists(intended.dom());
    let ka = key_order(actual.dom());
    let ki = key_order(intended.dom());
    let g1 = Seq::new(ka.len(), |i: int| change_finding(ka[i], actual[ka[i]], intended));
    let g2 = Seq::new(ki.len(), |i: int| missed_finding(ki[i], actual));
    assert(change_findings(actual, intended) == g1.flatten() + g2.flatten());
    if exists|k| #[trigger] unintended_change(k, actual, intended) {
        let k = choose|k| #[trigger] unintended_change(k, actual, intended);
        assert(actual.dom().contains(k));
        assert(ka.to_set().contains(k));
        let i = choose|i: int| 0 <= i < ka.len() && ka[i] == k;
        assert(g1[i].len() > 0);
        lemma_flatten_nonempty(g1, i);
    } else {
        if exists|k| #[trigger] missed_change(k, actual, intended) {
            let k = choose|k| #[trigger] missed_change(k, actual, intended);
            assert(intended.dom().contains(k));
            assert(ki.to_set().contains(k));
            let i = choose|i: int| 0 <= i < ki.len() && ki[i] == k;
            assert(g2[i].len() > 0);
            lemma_flatten_nonempty(g2, i);
        } else {
            assert(actual =~= intended) by {
                assert forall|k| actual.contains_key(k) <==> intended.contains_key(k) by {
                    if actual.contains_key(k) {
                        assert(!unintended_change(k, actual, intended));
                    }
                    if intended.contains_key(k) {
                        assert(!missed_change(k, actual, intended));
                    }
                }
                assert forall|k| #[trigger] actual.contains_key(k) implies actual[k] == intended[k] by {
                    assert(!unintended_change(k, actual, intended));
                }
            }
        }
    }
}

proof fn lemma_flatten_has<A>(g: Seq<Seq<A>>, i: int, j: int)
    requires
        0 <= i < g.len(),
        0 <= j < g[i].len(),
    ensures
        g.flatten().contains(g[i][j]),
    decreases g.len(),
{
    let x = g[i][j];
    if i == 0 {
        assert(g.flatten() == g[0] + g.drop_first().flatten());
        assert((g[0] + g.drop_first().flatten())[j] == x);
    } else {
        assert(g.drop_first()[i - 1] == g[i]);
        lemma_flatten_has(g.drop_first(), i - 1, j);
        assert(g.flatten() == g.first() + g.drop_first().flatten());
        let m = choose|m: int| 0 <= m < g.drop_first().flatten().len() && g.drop_first().flatten()[m] == x;
        assert((g.first() + g.drop_first().flatten())[g.first().len() + m] == x);
    }
}

/// A leaf that the edit took away counts as a change from its old text to
/// nothing: when a leaf path of `original` is gone from `modified` and no
/// change was intended there, the check refuses, naming an unexpected
/// change at that path from the old text to `""`.
pub proof fn removed_leaf_is_an_unexpected_change(
    original: TomlNode,
    modified: TomlNode,
    intended: Map<Seq<Seq<char>>, Seq<Seq<char>>>,
    k: Seq<Seq<char>>,
)
    requires
        intended.dom().finite(),
        flat(original).contains_key(k),
        !flat(modified).contains_key(k),
        !intended.contains_key(k),
    ensures
        changes(flat(original), flat(modified)) != intended,
        change_findings(changes(flat(original), flat(modified)), intended).contains(
            "  unexpected change at `"@ + k[0] + "`: "@ + str_debug(flat(original)[k][0]) + " -> "@
                + str_debug(Seq::empty()),
        ),
{
    let actual = changes(flat(original), flat(modified));
    assert(actual.contains_key(k));
    assert(actual[k] == seq![flat(original)[k][0], Seq::<char>::empty()]);
    lemma_leaf_map_finite(leaves(original, Seq::empty()));
    lemma_leaf_map_finite(leaves(modified, Seq::empty()));
    lemma_changes_finite(flat(original), flat(modified));
    crate::utils::ordmap::lemma_key_order_exists(actual.dom());
    let ka = key_order(actual.dom());
    let ki = key_order(intended.dom());
    let g1 = Seq::new(ka.len(), |i: int| change_finding(ka[i], actual[ka[i]], intended));
    let g2 = Seq::new(ki.len(), |i: int| missed_finding(ki[i], actual));
    assert(change_findings(actual, intended) == g1.flatten() + g2.flatten());
    assert(ka.to_set().contains(k));
    let i = choose|i: int| 0 <= i < ka.len() && ka[i] == k;
    let line = "  unexpected change at `"@ + k[0] + "`: "@ + str_debug(flat(original)[k][0]) + " -> "@
        + str_debug(Seq::<char>::empty());
    assert(g1[i] == seq![line]);
    lemma_flatten_has(g1, i, 0);
    let m = choose|m: int| 0 <= m < g1.flatten().len() && g1.flatten()[m] == line;
    assert((g1.flatten() + g2.flatten())[m] == line);
}

/// A lock check that refuses always says why: when the packages after the
/// bump are not the expected ones, there is at least one finding.
pub proof fn lock_refusal_names_a_finding(
    expected: Map<Seq<Seq<char>>, Seq<Seq<char>>>,
    after: Map<Seq<Seq<char>>, Seq<Seq<char>>>,
)
    requires
        expected.dom().finite(),
        after.dom().finite(),
        expected != after,
    ensures
        package_findings(expected, after).len() > 0,
{
    let d = expected.dom().union(after.dom());
    crate::utils::ordmap::lemma_key_order_exists(d);
    let ks = key_order(d);
    let g = Seq::new(ks.len(), |i: int| package_finding(ks[i], expected, after));
    assert(package_findings(expected, after) == g.flatten());
    if exists|k| #[trigger] d.contains(k) && package_finding(k, expected, after).len() > 0 {
        let k = choose|k| #[trigger] d.contains(k) && package_finding(k, expected, after).len() > 0;
        assert(ks.to_set().contains(k));
        let i = choose|i: int| 0 <= i < ks.len() && ks[i] == k;
        assert(g[i].len() > 0);
        lemma_flatten_nonempty(g, i);
    } else {
        assert(expected =~= after) by {
            assert forall|k| expected.contains_key(k) <==> after.contains_key(k) by {
                if expected.contains_key(k) || after.contains_key(k) {
                    assert(d.contains(k));
                    assert(package_finding(k, expected, after).len() == 0);
                }
            }
            assert forall|k| #[trigger] expected.contains_key(k) implies expected[k] == after[k] by {
                assert(d.contains(k));
                assert(package_finding(k, expected, after).len() == 0);
            }
        }
    }
}

proof fn lemma_dependency_targets_keep(
    entries: Seq<(String, TomlNode)>,
    names: Seq<Seq<char>>,
    current: Seq<char>,
    new: Seq<char>,
    m: Map<Seq<Seq<char>>, Seq<Seq<char>>>,
    k: Seq<Seq<char>>,
)
    requires
        m.contains_key(k),
        forall|name: Seq<char>| k != seq![#[trigger] dependency_key(name)],
    ensures
        dependency_targets(entries, names, current, new, m).contains_key(k),
        dependency_targets(entries, names, current, new, m)[k] == m[k],
    decreases entries.len(),
{
    if entries.len() > 0 {
        lemma_dependency_targets_keep(entries.drop_last(), names, current, new, m, k);
        match dependency_target(entries.last(), names, current, new) {
            Some(t) => {
                assert(t.0 == dependency_key(entries.last().0@));
                assert(seq![t.0] != k);
            },
            None => {},
        }
    }
}

/// The package version of a member's manifest that holds `current` is a
/// target, becoming `new`. This covers a single-crate repository too, whose
/// root package is its own workspace (`WorkspaceMembers::add_unclaimed_root`
/// adds its manifest to the member manifests).
pub proof fn member_package_version_is_a_target(
    manifest: Seq<char>,
    doc: TomlNode,
    members: WorkspaceMembers,
    current: Seq<char>,
    new: Seq<char>,
)
    requires
        views(members.manifests@).contains(manifest),
        str_at(doc, seq!["package"@, "version"@]) == Some(current),
    ensures
        targets_spec(manifest, doc, members, current, new).contains_key(
            seq![join_with(seq!["package"@, "version"@], "."@)],
        ),
        targets_spec(manifest, doc, members, current, new)[seq![
            join_with(seq!["package"@, "version"@], "."@),
        ]] == seq![current, new],
{
    reveal_strlit("package");
    reveal_strlit("version");
    reveal_strlit(".");
    reveal_strlit("workspace.dependencies.");
    reveal_strlit(".version");
    let parts = seq!["package"@, "version"@];
    assert(parts.drop_last() =~= seq!["package"@]);
    assert(join_with(seq!["package"@], "."@) == "package"@);
    assert(parts.last() == "version"@);
    let key = join_with(parts, "."@);
    assert(key == "package"@ + "."@ + "version"@);
    assert(key.len() == 15);
    let k = seq![key];
    assert forall|name: Seq<char>| k != seq![#[trigger] dependency_key(name)] by {
        assert(dependency_key(name).len() >= 31);
        assert(seq![dependency_key(name)][0] != k[0]);
    }
    let is_root = views(members.roots@).contains(manifest);
    let t1 = if is_root {
        with_target(
            Map::empty(),
            exact_target(doc, seq!["workspace"@, "package"@, "version"@], current, new),
        )
    } else {
        Map::empty()
    };
    let t2 = with_target(t1, exact_target(doc, parts, current, new));
    assert(t2.contains_key(k) && t2[k] == seq![current, new]);
    if is_root {
        match node_at(doc, seq!["workspace"@, "dependencies"@]) {
            Some(TomlNode::Table { entries, .. }) => {
                lemma_dependency_targets_keep(entries@, views(members.names@), current, new, t2, k);
            },
            _ => {},
        }
    }
}

/// The workspace version of every workspace root that holds `current` is a
/// target, becoming `new`, whether or not the root manifest is also a member
/// package's manifest.
pub proof fn workspace_version_of_a_root_is_a_target(
    manifest: Seq<char>,
    doc: TomlNode,
    members: WorkspaceMembers,
    current: Seq<char>,
    new: Seq<char>,
)
    requires
        views(members.roots@).contains(manifest),
        str_at(doc, seq!["workspace"@, "package"@, "version"@]) == Some(current),
    ensures
        targets_spec(manifest, doc, members, current, new).contains_key(
            seq![join_with(seq!["workspace"@, "package"@, "version"@], "."@)],
        ),
        targets_spec(manifest, doc, members, current, new)[seq![
            join_with(seq!["workspace"@, "package"@, "version"@], "."@),
        ]] == seq![current, new],
{
    reveal_strlit("workspace");
    reveal_strlit("package");
    reveal_strlit("version");
    reveal_strlit(".");
    reveal_strlit("workspace.dependencies.");
    reveal_strlit(".version");
    let parts = seq!["workspace"@, "package"@, "version"@];
    let pk = seq!["package"@, "version"@];
    assert(parts.drop_last() =~= seq!["workspace"@, "package"@]);
    assert(parts.drop_last().drop_last() =~= seq!["workspace"@]);
    assert(join_with(seq!["workspace"@], "."@) == "workspace"@);
    assert(join_with(seq!["workspace"@, "package"@], "."@) == "workspace"@ + "."@ + "package"@);
    let key = join_with(parts, "."@);
    assert(key == "workspace"@ + "."@ + "package"@ + "."@ + "version"@);
    assert(key.len() == 25);
    let k = seq![key];
    assert(pk.drop_last() =~= seq!["package"@]);
    assert(join_with(seq!["package"@], "."@) == "package"@);
    assert(join_with(pk, "."@).len() == 15);
    assert(seq![join_with(pk, "."@)] != k) by {
        assert(seq![join_with(pk, "."@)][0] != k[0]);
    }
    assert(key[10] == 'p');
    assert forall|name: Seq<char>| k != seq![#[trigger] dependency_key(name)] by {
        assert(dependency_key(name)[10] == 'd');
        assert(seq![dependency_key(name)][0] != k[0]);
    }
    let t1 = with_target(Map::empty(), exact_target(doc, parts, current, new));
    assert(t1.contains_key(k) && t1[k] == seq![current, new]);
    let t2 = if views(members.manifests@).contains(manifest) {
        with_target(t1, exact_target(doc, pk, current, new))
    } else {
        t1
    };
    assert(t2.contains_key(k) && t2[k] == seq![current, new]);
    match node_at(doc, seq!["workspace"@, "dependencies"@]) {
        Some(TomlNode::Table { entries, .. }) => {
            lemma_dependency_targets_keep(entries@, views(members.names@), current, new, t2, k);
        },
        _ => {},
    }
}

// ---------------------------------------------------------------------------
// Targets and leaves
// ---------------------------------------------------------------------------

proof fn lemma_flatten_contains(g: Seq<Seq<Leaf>>, i: int, x: Leaf)
    requires
        0 <= i < g.len(),
        g[i].contains(x),
    ensures
        g.flatten().contains(x),
    decreases g.len(),
{
    let k = choose|k: int| 0 <= k < g[i].len() && g[i][k] == x;
    if i == 0 {
        assert(g.flatten() == g[0] + g.drop_first().flatten());
        assert((g[0] + g.drop_first().flatten())[k] == x);
    } else {
        lemma_flatten_contains(g.drop_first(), i - 1, x);
        assert(g.flatten() == g.first() + g.drop_first().flatten());
        let m = choose|m: int| 0 <= m < g.drop_first().flatten().len() && g.drop_first().flatten()[m] == x;
        assert((g.first() + g.drop_first().flatten())[g.first().len() + m] == x);
    }
}

proof fn lemma_lookup_entry(entries: Seq<(String, TomlNode)>, key: Seq<char>)
    requires
        lookup(entries, key) is Some,
    ensures
        exists|j: int|
            0 <= j < entries.len() && #[trigger] entries[j].0@ == key && Some(entries[j].1) == lookup(
                entries,
                key,
            ),
    decreases entries.len(),
{
    if entries[0].0@ != key {
        lemma_lookup_entry(entries.drop_first(), key);
        let j = choose|j: int|
            0 <= j < entries.drop_first().len() && #[trigger] entries.drop_first()[j].0@ == key
                && Some(entries.drop_first()[j].1) == lookup(entries.drop_first(), key);
        assert(entries[j + 1] == entries.drop_first()[j]);
    } else {
        assert(entries[0].0@ == key);
    }
}

/// The leaves under the `j`-th entry of a (header or inline) table are
/// leaves of the table.
proof fn lemma_entry_leaves_in(node: TomlNode, path: Seq<char>, j: int, x: Leaf)
    requires
        node.table_like() matches Some(es) && 0 <= j < es.len() && leaves(
            es[j].1,
            join_key(path, es[j].0@),
        ).contains(x),
    ensures
        leaves(node, path).contains(x),
{
    match node {
        TomlNode::Table { entries, .. } => {
            let g = entry_leaves(entries, path);
            assert(g[j] == leaves(entries@[j].1, join_key(path, entries@[j].0@)));
            lemma_flatten_contains(g, j, x);
        },
        TomlNode::InlineTable { entries, .. } => {
            let g = entry_leaves(entries, path);
            assert(g[j] == leaves(entries@[j].1, join_key(path, entries@[j].0@)));
            lemma_flatten_contains(g, j, x);
        },
        _ => {},
    }
}

/// The leaves of `node.get(key)` (a found child) are leaves of `node`.
proof fn lemma_child_leaves_in(node: TomlNode, path: Seq<char>, key: Seq<char>, x: Leaf)
    requires
        node.get_spec(key) matches Some(c) && leaves(c, join_key(path, key)).contains(x),
    ensures
        leaves(node, path).contains(x),
{
    let es = node.table_like()->Some_0;
    lemma_lookup_entry(es, key);
    let j = choose|j: int|
        0 <= j < es.len() && #[trigger] es[j].0@ == key && Some(es[j].1) == lookup(es, key);
    lemma_entry_leaves_in(node, path, j, x);
}

/// A leaf path: `path` under `prefix`, key by key.
pub open spec fn path_key(prefix: Seq<char>, path: Seq<Seq<char>>) -> Seq<char>
    decreases path.len(),
{
    if path.len() == 0 {
        prefix
    } else {
        path_key(join_key(prefix, path[0]), path.drop_first())
    }
}

/// The leaves of the node that `path` leads to are leaves of `doc`.
proof fn lemma_node_at_leaves(doc: TomlNode, prefix: Seq<char>, path: Seq<Seq<char>>, x: Leaf)
    requires
        node_at(doc, path) matches Some(n) && leaves(n, path_key(prefix, path)).contains(x),
    ensures
        leaves(doc, prefix).contains(x),
    decreases path.len(),
{
    if path.len() > 0 {
        let c = doc.get_spec(path[0])->Some_0;
        lemma_node_at_leaves(c, join_key(prefix, path[0]), path.drop_first(), x);
        lemma_child_leaves_in(doc, prefix, path[0], x);
    }
}

/// A leaf whose path no other leaf shares is what the leaf map holds at
/// its path.
proof fn lemma_leaf_map_holds(ls: Seq<Leaf>, x: Leaf)
    requires
        ls.contains(x),
        forall|i: int, j: int|
            0 <= i < j < ls.len() && (#[trigger] ls[i]).0 == x.0 ==> (#[trigger] ls[j]).0 != x.0,
    ensures
        leaf_map(ls).contains_key(seq![x.0]),
        leaf_map(ls)[seq![x.0]] == seq![x.1],
    decreases ls.len(),
{
    let t = ls.drop_last();
    if ls.last() == x {
    } else {
        let k = choose|k: int| 0 <= k < ls.len() && ls[k] == x;
        assert(k < ls.len() - 1);
        assert(t[k] == x);
        assert forall|i: int, j: int|
            0 <= i < j < t.len() && (#[trigger] t[i]).0 == x.0 implies (#[trigger] t[j]).0 != x.0 by {
            assert(t[i] == ls[i] && t[j] == ls[j]);
        }
        lemma_leaf_map_holds(t, x);
        assert(ls[k].0 != ls[ls.len() - 1].0);
        assert(seq![ls.last().0] != seq![x.0]) by {
            assert(seq![ls.last().0][0] != seq![x.0][0]);
        }
    }
}

/// Whether at most one leaf of `doc` has the dotted path `p` (true of every
/// path when no key holds a dot, since the keys of a TOML table are unique;
/// a quoted key such as `"a.b"` beside a table `a` holding `b` gives two).
pub open spec fn single_leaf_path(doc: TomlNode, p: Seq<char>) -> bool {
    let ls = leaves(doc, Seq::empty());
    forall|i: int, j: int|
        0 <= i < j < ls.len() && (#[trigger] ls[i]).0 == p ==> (#[trigger] ls[j]).0 != p
}

/// Whether the target `(k, v)` reads its old text from the leaf at `k`.
pub open spec fn target_holds_leaf(doc: TomlNode, k: Seq<Seq<char>>, v: Seq<Seq<char>>) -> bool {
    flat(doc).contains_key(k) && flat(doc)[k] == seq![v[0]]
}

proof fn lemma_exact_target_leaf(doc: TomlNode, path: Seq<Seq<char>>, current: Seq<char>, new: Seq<char>)
    requires
        exact_target(doc, path, current, new) is Some,
        single_leaf_path(doc, exact_target(doc, path, current, new)->Some_0.0),
        path_key(Seq::empty(), path) == join_with(path, "."@),
    ensures
        ({
            let t = exact_target(doc, path, current, new)->Some_0;
            target_holds_leaf(doc, seq![t.0], t.1)
        }),
{
    let t = exact_target(doc, path, current, new)->Some_0;
    let n = node_at(doc, path)->Some_0;
    let pk = path_key(Seq::empty(), path);
    match n {
        TomlNode::Str { value, .. } => {
            let x = (pk, value@);
            assert(leaves(n, pk) == seq![x]);
            assert(leaves(n, pk)[0] == x);
            lemma_node_at_leaves(doc, Seq::empty(), path, x);
            lemma_leaf_map_holds(leaves(doc, Seq::empty()), x);
        },
        _ => {},
    }
}

proof fn lemma_literal_paths()
    ensures
        path_key(Seq::empty(), seq!["workspace"@, "package"@, "version"@]) == join_with(
            seq!["workspace"@, "package"@, "version"@],
            "."@,
        ),
        path_key(Seq::empty(), seq!["package"@, "version"@]) == join_with(
            seq!["package"@, "version"@],
            "."@,
        ),
        path_key(Seq::empty(), seq!["workspace"@, "dependencies"@]) == "workspace"@ + seq!['.']
            + "dependencies"@,
{
    reveal_strlit("workspace");
    reveal_strlit("package");
    reveal_strlit("version");
    reveal_strlit("dependencies");
    reveal_strlit(".");
    reveal_with_fuel(path_key, 4);
    assert("."@ =~= seq!['.']);
    let w = "workspace"@;
    let p = "package"@;
    let v = "version"@;
    let a = seq![w, p, v];
    let a1 = a.drop_first();
    let a2 = a1.drop_first();
    assert(a1 =~= seq![p, v]);
    assert(a2 =~= seq![v]);
    assert(a2.drop_first() =~= Seq::<Seq<char>>::empty());
    let p1 = join_key(Seq::empty(), w);
    let p2 = join_key(p1, p);
    let p3 = join_key(p2, v);
    assert(p1 == w);
    assert(p2 == w + seq!['.'] + p);
    assert(p3 == w + seq!['.'] + p + seq!['.'] + v);
    assert(path_key(p3, a2.drop_first()) == p3);
    assert(path_key(p2, a2) == p3);
    assert(path_key(p1, a1) == p3);
    assert(path_key(Seq::empty(), a) == p3);
    assert(a.drop_last() =~= seq![w, p]);
    assert(a.drop_last().drop_last() =~= seq![w]);
    assert(join_with(seq![w], "."@) == w);
    assert(join_with(seq![w, p], "."@) == w + "."@ + p);
    assert(join_with(a, "."@) == join_with(seq![w, p], "."@) + "."@ + v);
    assert(p3 =~= join_with(a, "."@));
    let b = seq![p, v];
    let b1 = b.drop_first();
    assert(b1 =~= seq![v]);
    assert(b1.drop_first() =~= Seq::<Seq<char>>::empty());
    let q1 = join_key(Seq::empty(), p);
    let q2 = join_key(q1, v);
    assert(q1 == p);
    assert(q2 == p + seq!['.'] + v);
    assert(path_key(q2, b1.drop_first()) == q2);
    assert(path_key(q1, b1) == q2);
    assert(path_key(Seq::empty(), b) == q2);
    assert(b.drop_last() =~= seq![p]);
    assert(join_with(seq![p], "."@) == p);
    assert(join_with(b, "."@) == p + "."@ + v);
    assert(q2 =~= join_with(b, "."@));
    let c = seq!["workspace"@, "dependencies"@];
    assert(c.drop_first() =~= seq!["dependencies"@]);
    assert(c.drop_first().drop_first() =~= Seq::<Seq<char>>::empty());
    assert(path_key(Seq::empty(), c) =~= "workspace"@ + seq!['.'] + "dependencies"@);
}

proof fn lemma_dependency_entry_leaf(
    doc: TomlNode,
    deps: TomlNode,
    j: int,
    names: Seq<Seq<char>>,
    current: Seq<char>,
    new: Seq<char>,
)
    requires
        node_at(doc, seq!["workspace"@, "dependencies"@]) == Some(deps),
        deps.table_like() matches Some(es) && 0 <= j < es.len() && dependency_target(
            es[j],
            names,
            current,
            new,
        ) is Some,
        single_leaf_path(
            doc,
            dependency_target(deps.table_like()->Some_0[j], names, current, new)->Some_0.0,
        ),
    ensures
        ({
            let t = dependency_target(deps.table_like()->Some_0[j], names, current, new)->Some_0;
            target_holds_leaf(doc, seq![t.0], t.1)
        }),
{
    let es = deps.table_like()->Some_0;
    let e = es[j];
    let t = dependency_target(e, names, current, new)->Some_0;
    let v = e.1.get_spec("version"@)->Some_0;
    lemma_literal_paths();
    let dpath = path_key(Seq::empty(), seq!["workspace"@, "dependencies"@]);
    let epath = join_key(dpath, e.0@);
    let vpath = join_key(epath, "version"@);
    match v {
        TomlNode::Str { value, .. } => {
            let x = (vpath, value@);
            assert(leaves(v, vpath)[0] == x);
            lemma_child_leaves_in(e.1, epath, "version"@, x);
            lemma_entry_leaves_in(deps, dpath, j, x);
            lemma_node_at_leaves(doc, Seq::empty(), seq!["workspace"@, "dependencies"@], x);
            reveal_strlit("workspace");
            reveal_strlit("dependencies");
            reveal_strlit("version");
            reveal_strlit("workspace.dependencies.");
            reveal_strlit(".version");
            assert(vpath =~= dependency_key(e.0@));
            lemma_leaf_map_holds(leaves(doc, Seq::empty()), x);
        },
        _ => {},
    }
}

proof fn lemma_dependency_targets_leaves(
    es: Seq<(String, TomlNode)>,
    names: Seq<Seq<char>>,
    current: Seq<char>,
    new: Seq<char>,
    m: Map<Seq<Seq<char>>, Seq<Seq<char>>>,
    doc: TomlNode,
)
    requires
        forall|k| #[trigger] m.contains_key(k) ==> target_holds_leaf(doc, k, m[k]),
        forall|j: int|
            0 <= j < es.len() && dependency_target(#[trigger] es[j], names, current, new) is Some
                ==> target_holds_leaf(
                doc,
                seq![dependency_target(es[j], names, current, new)->Some_0.0],
                dependency_target(es[j], names, current, new)->Some_0.1,
            ),
    ensures
        forall|k| #[trigger] dependency_targets(es, names, current, new, m).contains_key(k)
            ==> target_holds_leaf(doc, k, dependency_targets(es, names, current, new, m)[k]),
    decreases es.len(),
{
    if es.len() > 0 {
        let t0 = es.drop_last();
        assert forall|j: int|
            0 <= j < t0.len() && dependency_target(#[trigger] t0[j], names, current, new) is Some
                implies target_holds_leaf(
                doc,
                seq![dependency_target(t0[j], names, current, new)->Some_0.0],
                dependency_target(t0[j], names, current, new)->Some_0.1,
            ) by {
            assert(t0[j] == es[j]);
        }
        lemma_dependency_targets_leaves(t0, names, current, new, m, doc);
        let prev = dependency_targets(t0, names, current, new, m);
        let last = es.len() - 1;
        assert(es.last() == es[last]);
        match dependency_target(es.last(), names, current, new) {
            Some(t) => {
                let res = prev.insert(seq![t.0], t.1);
                assert(dependency_targets(es, names, current, new, m) == res);
                assert forall|k| #[trigger] res.contains_key(k) implies target_holds_leaf(
                    doc,
                    k,
                    res[k],
                ) by {
                    if k != seq![t.0] {
                        assert(prev.contains_key(k));
                    }
                }
            },
            None => {
                assert(dependency_targets(es, names, current, new, m) == prev);
            },
        }
    }
}

/// The dependency targets keep the keys they start from.
proof fn lemma_dependency_targets_grow(
    es: Seq<(String, TomlNode)>,
    names: Seq<Seq<char>>,
    current: Seq<char>,
    new: Seq<char>,
    m: Map<Seq<Seq<char>>, Seq<Seq<char>>>,
    k: Seq<Seq<char>>,
)
    requires
        m.contains_key(k),
    ensures
        dependency_targets(es, names, current, new, m).contains_key(k),
    decreases es.len(),
{
    if es.len() > 0 {
        lemma_dependency_targets_grow(es.drop_last(), names, current, new, m, k);
    }
}

/// The key of each dependency entry's target is among the dependency
/// targets.
proof fn lemma_dependency_targets_have(
    es: Seq<(String, TomlNode)>,
    names: Seq<Seq<char>>,
    current: Seq<char>,
    new: Seq<char>,
    m: Map<Seq<Seq<char>>, Seq<Seq<char>>>,
    j: int,
)
    requires
        0 <= j < es.len(),
        dependency_target(es[j], names, current, new) is Some,
    ensures
        dependency_targets(es, names, current, new, m).contains_key(
            seq![dependency_target(es[j], names, current, new)->Some_0.0],
        ),
    decreases es.len(),
{
    let t0 = es.drop_last();
    if j < es.len() - 1 {
        assert(t0[j] == es[j]);
        lemma_dependency_targets_have(t0, names, current, new, m, j);
    } else {
        assert(es.last() == es[j]);
    }
}

/// Every target of a bump reads its old text from the document: its key is
/// a leaf path of `flatten_leaves(doc)` holding the target's old text, when
/// no other leaf of the document shares that path.
pub proof fn targets_are_leaves(
    manifest: Seq<char>,
    doc: TomlNode,
    members: WorkspaceMembers,
    current: Seq<char>,
    new: Seq<char>,
)
    requires
        forall|k| #[trigger] targets_spec(manifest, doc, members, current, new).contains_key(k)
            ==> single_leaf_path(doc, k[0]),
    ensures
        forall|k| #[trigger] targets_spec(manifest, doc, members, current, new).contains_key(k)
            ==> target_holds_leaf(doc, k, targets_spec(manifest, doc, members, current, new)[k]),
{
    lemma_literal_paths();
    let all = targets_spec(manifest, doc, members, current, new);
    let names = views(members.names@);
    let ws = seq!["workspace"@, "package"@, "version"@];
    let pk = seq!["package"@, "version"@];
    let is_root = views(members.roots@).contains(manifest);
    let is_member = views(members.manifests@).contains(manifest);
    let t1 = if is_root {
        with_target(Map::empty(), exact_target(doc, ws, current, new))
    } else {
        Map::empty()
    };
    let t2 = if is_member {
        with_target(t1, exact_target(doc, pk, current, new))
    } else {
        t1
    };
    assert forall|k| t2.contains_key(k) implies all.contains_key(k) by {
        if is_root {
            match node_at(doc, seq!["workspace"@, "dependencies"@]) {
                Some(TomlNode::Table { entries, .. }) => {
                    lemma_dependency_targets_grow(entries@, names, current, new, t2, k);
                },
                _ => {},
            }
        }
    }
    if is_root && exact_target(doc, ws, current, new) is Some {
        let t = exact_target(doc, ws, current, new)->Some_0;
        assert(t2.contains_key(seq![t.0]));
        assert(seq![t.0][0] == t.0);
        lemma_exact_target_leaf(doc, ws, current, new);
    }
    if is_member && exact_target(doc, pk, current, new) is Some {
        let t = exact_target(doc, pk, current, new)->Some_0;
        assert(t2.contains_key(seq![t.0]));
        assert(seq![t.0][0] == t.0);
        lemma_exact_target_leaf(doc, pk, current, new);
    }
    assert forall|k| #[trigger] t2.contains_key(k) implies target_holds_leaf(doc, k, t2[k]) by {}
    if is_root {
        match node_at(doc, seq!["workspace"@, "dependencies"@]) {
            Some(TomlNode::Table { entries, .. }) => {
                let deps = node_at(doc, seq!["workspace"@, "dependencies"@])->Some_0;
                let es = entries@;
                assert(deps.table_like() == Some(es));
                assert forall|j: int|
                    0 <= j < es.len() && dependency_target(#[trigger] es[j], names, current, new)
                        is Some implies target_holds_leaf(
                    doc,
                    seq![dependency_target(es[j], names, current, new)->Some_0.0],
                    dependency_target(es[j], names, current, new)->Some_0.1,
                ) by {
                    let t = dependency_target(es[j], names, current, new)->Some_0;
                    lemma_dependency_targets_have(es, names, current, new, t2, j);
                    assert(seq![t.0][0] == t.0);
                    lemma_dependency_entry_leaf(doc, deps, j, names, current, new);
                }
                lemma_dependency_targets_leaves(es, names, current, new, t2, doc);
            },
            _ => {},
        }
    }
}

} // verus!
