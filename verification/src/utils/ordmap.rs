//! An ordered map over text keys, kept as a vector sorted by key: the form in
//! which leaf paths, intended changes and lock file packages are compared and
//! reported (in the order a `BTreeMap` walks them).
use crate::utils::text::{lex_lt, str_eq, str_lt};
use vstd::prelude::*;

verus! {

/// Order of a sequence of strings: element by element, a proper prefix first.
pub open spec fn parts_lt(a: Seq<Seq<char>>, b: Seq<Seq<char>>) -> bool
    decreases a.len(),
{
    if a.len() == 0 {
        b.len() > 0
    } else if b.len() == 0 {
        false
    } else if a[0] != b[0] {
        lex_lt(a[0], b[0])
    } else {
        parts_lt(a.drop_first(), b.drop_first())
    }
}

/// A value that reads as a fixed sequence of strings: a `String` is one part,
/// a pair of strings two, `()` none. Keys and values of [`SortedMap`] are
/// compared through these parts.
pub trait Textual: Sized {
    spec fn parts(&self) -> Seq<Seq<char>>;

    fn parts_lt(&self, other: &Self) -> (r: bool)
        ensures
            r == parts_lt(self.parts(), other.parts()),
    ;

    fn parts_eq(&self, other: &Self) -> (r: bool)
        ensures
            r == (self.parts() == other.parts()),
    ;
}

impl Textual for String {
    open spec fn parts(&self) -> Seq<Seq<char>> {
        seq![self@]
    }

    fn parts_lt(&self, other: &Self) -> (r: bool) {
        let r = str_lt(self.as_str(), other.as_str());
        proof {
            let a = self.parts();
            let b = other.parts();
            lemma_parts_lt_single(self@, other@);
        }
        r
    }

    fn parts_eq(&self, other: &Self) -> (r: bool) {
        let r = str_eq(self.as_str(), other.as_str());
        proof {
            if !r {
                assert(self.parts()[0] != other.parts()[0]);
            } else {
                assert(self.parts() =~= other.parts());
            }
        }
        r
    }
}

impl Textual for (String, String) {
    open spec fn parts(&self) -> Seq<Seq<char>> {
        seq![self.0@, self.1@]
    }

    fn parts_lt(&self, other: &Self) -> (r: bool) {
        let first_lt = str_lt(self.0.as_str(), other.0.as_str());
        let first_eq = str_eq(self.0.as_str(), other.0.as_str());
        let second_lt = str_lt(self.1.as_str(), other.1.as_str());
        let second_eq = str_eq(self.1.as_str(), other.1.as_str());
        proof {
            let a = self.parts();
            let b = other.parts();
            let a1 = a.drop_first();
            let b1 = b.drop_first();
            assert(a1 =~= seq![self.1@]);
            assert(b1 =~= seq![other.1@]);
            assert(a1.drop_first() =~= Seq::<Seq<char>>::empty());
            assert(b1.drop_first() =~= Seq::<Seq<char>>::empty());
            lemma_lex_lt_irreflexive(self.0@);
            lemma_lex_lt_irreflexive(self.1@);
            lemma_parts_lt_single(self.1@, other.1@);
            if self.0@ == other.0@ {
                assert(parts_lt(a, b) == parts_lt(a1, b1));
            }
        }
        first_lt || (first_eq && second_lt)
    }

    fn parts_eq(&self, other: &Self) -> (r: bool) {
        let r = str_eq(self.0.as_str(), other.0.as_str()) && str_eq(
            self.1.as_str(),
            other.1.as_str(),
        );
        proof {
            if r {
                assert(self.parts() =~= other.parts());
            } else if self.0@ != other.0@ {
                assert(self.parts()[0] != other.parts()[0]);
            } else {
                assert(self.parts()[1] != other.parts()[1]);
            }
        }
        r
    }
}

impl Textual for () {
    open spec fn parts(&self) -> Seq<Seq<char>> {
        Seq::empty()
    }

    fn parts_lt(&self, other: &Self) -> (r: bool) {
        false
    }

    fn parts_eq(&self, other: &Self) -> (r: bool) {
        true
    }
}

// ---------------------------------------------------------------------------
// Order lemmas
// ---------------------------------------------------------------------------

pub proof fn lemma_lex_lt_irreflexive(a: Seq<char>)
    ensures
        !lex_lt(a, a),
    decreases a.len(),
{
    if a.len() > 0 {
        lemma_lex_lt_irreflexive(a.drop_first());
    }
}

pub proof fn lemma_lex_lt_transitive(a: Seq<char>, b: Seq<char>, c: Seq<char>)
    requires
        lex_lt(a, b),
        lex_lt(b, c),
    ensures
        lex_lt(a, c),
    decreases a.len(),
{
    if a.len() > 0 && b.len() > 0 && c.len() > 0 {
        if a[0] == b[0] && b[0] == c[0] {
            lemma_lex_lt_transitive(a.drop_first(), b.drop_first(), c.drop_first());
        }
    }
}

pub proof fn lemma_lex_lt_total(a: Seq<char>, b: Seq<char>)
    ensures
        a == b || lex_lt(a, b) || lex_lt(b, a),
    decreases a.len(),
{
    if a.len() > 0 && b.len() > 0 && a[0] == b[0] {
        lemma_lex_lt_total(a.drop_first(), b.drop_first());
        if a.drop_first() == b.drop_first() {
            assert(a =~= seq![a[0]] + a.drop_first());
            assert(b =~= seq![b[0]] + b.drop_first());
        }
    } else if a.len() == 0 && b.len() == 0 {
        assert(a =~= b);
    }
}

/// Single parts compare as their strings do.
pub proof fn lemma_parts_lt_single(x: Seq<char>, y: Seq<char>)
    ensures
        parts_lt(seq![x], seq![y]) == lex_lt(x, y),
{
    let a = seq![x];
    let b = seq![y];
    assert(a.drop_first() =~= Seq::<Seq<char>>::empty());
    assert(b.drop_first() =~= Seq::<Seq<char>>::empty());
    assert(!parts_lt(a.drop_first(), b.drop_first()));
    lemma_lex_lt_irreflexive(x);
}

pub proof fn lemma_parts_lt_irreflexive(a: Seq<Seq<char>>)
    ensures
        !parts_lt(a, a),
    decreases a.len(),
{
    if a.len() > 0 {
        lemma_parts_lt_irreflexive(a.drop_first());
    }
}

pub proof fn lemma_parts_lt_transitive(a: Seq<Seq<char>>, b: Seq<Seq<char>>, c: Seq<Seq<char>>)
    requires
        parts_lt(a, b),
        parts_lt(b, c),
    ensures
        parts_lt(a, c),
    decreases a.len(),
{
    if a.len() > 0 && b.len() > 0 && c.len() > 0 {
        if a[0] == b[0] && b[0] == c[0] {
            lemma_parts_lt_transitive(a.drop_first(), b.drop_first(), c.drop_first());
        } else if a[0] == b[0] {
        } else if b[0] == c[0] {
        } else {
            lemma_lex_lt_transitive(a[0], b[0], c[0]);
            if a[0] == c[0] {
                lemma_lex_lt_irreflexive(a[0]);
                lemma_lex_lt_transitive(a[0], b[0], a[0]);
            }
        }
    }
}

pub proof fn lemma_parts_lt_total(a: Seq<Seq<char>>, b: Seq<Seq<char>>)
    ensures
        a == b || parts_lt(a, b) || parts_lt(b, a),
    decreases a.len(),
{
    if a.len() > 0 && b.len() > 0 && a[0] == b[0] {
        lemma_parts_lt_total(a.drop_first(), b.drop_first());
        if a.drop_first() == b.drop_first() {
            assert(a =~= seq![a[0]] + a.drop_first());
            assert(b =~= seq![b[0]] + b.drop_first());
        }
    } else if a.len() == 0 && b.len() == 0 {
        assert(a =~= b);
    } else if a.len() > 0 && b.len() > 0 {
        lemma_lex_lt_total(a[0], b[0]);
    }
}

pub proof fn lemma_parts_lt_asymmetric(a: Seq<Seq<char>>, b: Seq<Seq<char>>)
    requires
        parts_lt(a, b),
    ensures
        !parts_lt(b, a),
        a != b,
{
    lemma_parts_lt_irreflexive(a);
    if parts_lt(b, a) {
        lemma_parts_lt_transitive(a, b, a);
    }
}

// ---------------------------------------------------------------------------
// The map
// ---------------------------------------------------------------------------

/// Whether the keys of `s` strictly increase.
pub open spec fn keys_increasing<K: Textual, V>(s: Seq<(K, V)>) -> bool {
    forall|i: int, j: int|
        0 <= i < j < s.len() ==> parts_lt(#[trigger] s[i].0.parts(), #[trigger] s[j].0.parts())
}

/// The map that the entries `s` describe, keys and values read as parts.
pub open spec fn entries_map<K: Textual, V: Textual>(s: Seq<(K, V)>) -> Map<
    Seq<Seq<char>>,
    Seq<Seq<char>>,
>
    decreases s.len(),
{
    if s.len() == 0 {
        Map::empty()
    } else {
        entries_map(s.drop_last()).insert(s.last().0.parts(), s.last().1.parts())
    }
}

/// The key parts of the entries `s`, in order.
pub open spec fn entry_keys<K: Textual, V>(s: Seq<(K, V)>) -> Seq<Seq<Seq<char>>> {
    s.map_values(|e: (K, V)| e.0.parts())
}

/// An ordered map: entries kept in strictly increasing key order.
#[derive(Debug, PartialEq, Eq)]
pub struct SortedMap<K, V> {
    entries: Vec<(K, V)>,
}

impl<K: Textual, V: Textual> SortedMap<K, V> {
    /// The entries, in key order.
    pub closed spec fn entries(&self) -> Seq<(K, V)> {
        self.entries@
    }

    /// The map from key parts to value parts.
    pub open spec fn map(&self) -> Map<Seq<Seq<char>>, Seq<Seq<char>>> {
        entries_map(self.entries())
    }

    /// Well-formedness: keys strictly increase.
    pub open spec fn wf(&self) -> bool {
        keys_increasing(self.entries())
    }

    /// An empty map.
    pub fn new() -> (r: Self)
        ensures
            r.wf(),
            r.entries() == Seq::<(K, V)>::empty(),
            r.map() == Map::<Seq<Seq<char>>, Seq<Seq<char>>>::empty(),
    {
        SortedMap { entries: Vec::new() }
    }

    /// The number of entries.
    pub fn len(&self) -> (r: usize)
        ensures
            r == self.entries().len(),
    {
        self.entries.len()
    }

    /// Whether the map has no entries.
    pub fn is_empty(&self) -> (r: bool)
        ensures
            r == (self.entries().len() == 0),
    {
        self.entries.len() == 0
    }

    /// The `i`-th entry in key order.
    pub fn entry(&self, i: usize) -> (r: &(K, V))
        requires
            i < self.entries().len(),
        ensures
            *r == self.entries()[i as int],
    {
        &self.entries[i]
    }

    /// Where `key` stands: the first position whose key is not below it, and
    /// whether that key equals it.
    fn locate(&self, key: &K) -> (r: (usize, bool))
        requires
            self.wf(),
        ensures
            r.0 <= self.entries().len(),
            forall|j: int| 0 <= j < r.0 ==> parts_lt(#[trigger] self.entries()[j].0.parts(), key.parts()),
            forall|j: int|
                r.0 <= j < self.entries().len() ==> !parts_lt(
                    #[trigger] self.entries()[j].0.parts(),
                    key.parts(),
                ),
            r.1 == (r.0 < self.entries().len() && self.entries()[r.0 as int].0.parts() == key.parts()),
            r.1 ==> forall|j: int|
                0 <= j < self.entries().len() && j != r.0 ==> #[trigger] self.entries()[j].0.parts() != key.parts(),
            !r.1 ==> forall|j: int|
                0 <= j < self.entries().len() ==> #[trigger] self.entries()[j].0.parts() != key.parts(),
    {
        let mut i: usize = 0;
        while i < self.entries.len() && self.entries[i].0.parts_lt(key)
            invariant
                self.wf(),
                i <= self.entries@.len(),
                forall|j: int| 0 <= j < i ==> parts_lt(#[trigger] self.entries@[j].0.parts(), key.parts()),
            decreases self.entries@.len() - i,
        {
            i = i + 1;
        }
        proof {
            assert forall|j: int| i <= j < self.entries@.len() implies !parts_lt(
                #[trigger] self.entries@[j].0.parts(),
                key.parts(),
            ) by {
                if j > i {
                    let a = self.entries@[i as int].0.parts();
                    let b = self.entries@[j].0.parts();
                    assert(parts_lt(a, b));
                    assert(!parts_lt(a, key.parts()));
                    if parts_lt(b, key.parts()) {
                        lemma_parts_lt_transitive(a, b, key.parts());
                    }
                }
            }
        }
        let found = i < self.entries.len() && self.entries[i].0.parts_eq(key);
        proof {
            assert forall|j: int| 0 <= j < self.entries@.len() && j != i implies #[trigger] self.entries@[
                j].0.parts() != key.parts() by {
                if j < i {
                    lemma_parts_lt_asymmetric(self.entries@[j].0.parts(), key.parts());
                } else {
                    assert(parts_lt(self.entries@[i as int].0.parts(), self.entries@[j].0.parts()));
                }
            }
        }
        (i, found)
    }

    /// The value stored under `key`.
    pub fn get(&self, key: &K) -> (r: Option<&V>)
        requires
            self.wf(),
        ensures
            r is Some == self.map().contains_key(key.parts()),
            r matches Some(v) ==> v.parts() == self.map()[key.parts()],
    {
        let (i, found) = self.locate(key);
        proof {
            lemma_entries_map(self.entries());
        }
        if found {
            Some(&self.entries[i].1)
        } else {
            None
        }
    }

    /// Whether `key` is present.
    pub fn contains_key(&self, key: &K) -> (r: bool)
        requires
            self.wf(),
        ensures
            r == self.map().contains_key(key.parts()),
    {
        let (_, found) = self.locate(key);
        proof {
            lemma_entries_map(self.entries());
        }
        found
    }

    /// Stores `value` under `key`, replacing what was there.
    pub fn insert(&mut self, key: K, value: V)
        requires
            old(self).wf(),
        ensures
            final(self).wf(),
            final(self).map() == old(self).map().insert(key.parts(), value.parts()),
    {
        let (i, found) = self.locate(&key);
        let ghost before = self.entries@;
        if found {
            self.entries.remove(i);
            self.entries.insert(i, (key, value));
        } else {
            self.entries.insert(i, (key, value));
        }
        proof {
            let after = self.entries@;
            assert forall|a: int, b: int| 0 <= a < b < after.len() implies parts_lt(
                #[trigger] after[a].0.parts(),
                #[trigger] after[b].0.parts(),
            ) by {
                if found {
                    if a == i {
                        assert(before[b].0.parts() == after[b].0.parts());
                        assert(parts_lt(before[a].0.parts(), before[b].0.parts()));
                    } else if b == i {
                        assert(before[a].0.parts() == after[a].0.parts());
                    }
                } else {
                    if a == i {
                        assert(after[b] == before[b - 1]);
                        let k = before[b - 1].0.parts();
                        assert(!parts_lt(k, key.parts()));
                        assert(k != key.parts());
                        lemma_parts_lt_total(k, key.parts());
                    } else if b == i {
                        assert(after[a] == before[a]);
                    } else if a > i {
                        assert(after[a] == before[a - 1]);
                        assert(after[b] == before[b - 1]);
                    } else if b > i {
                        assert(after[a] == before[a]);
                        assert(after[b] == before[b - 1]);
                    }
                }
            }
            lemma_entries_map(before);
            lemma_entries_map(after);
            let m = entries_map(before).insert(key.parts(), value.parts());
            assert forall|k: Seq<Seq<char>>| #[trigger] m.contains_key(k) == entries_map(
                after,
            ).contains_key(k) && (m.contains_key(k) ==> m[k] == entries_map(after)[k]) by {
                if k == key.parts() {
                    assert(after[i as int].0.parts() == k);
                } else if m.contains_key(k) {
                    let j = choose|j: int| 0 <= j < before.len() && #[trigger] before[j].0.parts() == k;
                    if found {
                        assert(after[j] == before[j]);
                    } else if j < i {
                        assert(after[j] == before[j]);
                    } else {
                        assert(after[j + 1] == before[j]);
                    }
                } else if entries_map(after).contains_key(k) {
                    let j = choose|j: int| 0 <= j < after.len() && #[trigger] after[j].0.parts() == k;
                    if found {
                        assert(after[j] == before[j]);
                    } else if j < i {
                        assert(after[j] == before[j]);
                    } else {
                        assert(after[j] == before[j - 1]);
                    }
                }
            }
            assert(m =~= entries_map(after));
        }
    }

    /// Whether the two maps hold the same keys with the same values.
    pub fn same_as(&self, other: &Self) -> (r: bool)
        requires
            self.wf(),
            other.wf(),
        ensures
            r == (self.map() == other.map()),
    {
        let n = self.entries.len();
        if n != other.entries.len() {
            proof {
                if self.map() == other.map() {
                    lemma_map_determines_entries(self.entries(), other.entries());
                }
            }
            return false;
        }
        let mut i: usize = 0;
        while i < n
            invariant
                self.wf(),
                other.wf(),
                n == self.entries@.len() == other.entries@.len(),
                i <= n,
                forall|j: int|
                    0 <= j < i ==> (#[trigger] self.entries@[j]).0.parts() == other.entries@[j].0.parts()
                        && self.entries@[j].1.parts() == other.entries@[j].1.parts(),
            decreases n - i,
        {
            let same = self.entries[i].0.parts_eq(&other.entries[i].0) && self.entries[i].1.parts_eq(
                &other.entries[i].1,
            );
            if !same {
                proof {
                    if self.map() == other.map() {
                        lemma_map_determines_entries(self.entries(), other.entries());
                    }
                }
                return false;
            }
            i = i + 1;
        }
        proof {
            lemma_entries_equal_maps(self.entries(), other.entries());
        }
        true
    }
}

/// What `entries_map` holds: each key present is the key of an entry, with the
/// value of the last such entry.
pub proof fn lemma_entries_map<K: Textual, V: Textual>(s: Seq<(K, V)>)
    ensures
        forall|k: Seq<Seq<char>>|
            #[trigger] entries_map(s).contains_key(k) <==> exists|j: int|
                0 <= j < s.len() && #[trigger] s[j].0.parts() == k,
        keys_increasing(s) ==> forall|j: int|
            0 <= j < s.len() ==> #[trigger] entries_map(s)[s[j].0.parts()] == s[j].1.parts(),
        keys_increasing(s) ==> entries_map(s).dom().len() == s.len(),
        entries_map(s).dom().finite(),
    decreases s.len(),
{
    if s.len() > 0 {
        let t = s.drop_last();
        lemma_entries_map(t);
        assert forall|k: Seq<Seq<char>>| #[trigger] entries_map(s).contains_key(k) <==> exists|j: int|
            0 <= j < s.len() && #[trigger] s[j].0.parts() == k by {
            if entries_map(t).contains_key(k) {
                let j = choose|j: int| 0 <= j < t.len() && #[trigger] t[j].0.parts() == k;
                assert(s[j] == t[j]);
            }
            if exists|j: int| 0 <= j < s.len() && #[trigger] s[j].0.parts() == k {
                let j = choose|j: int| 0 <= j < s.len() && #[trigger] s[j].0.parts() == k;
                if j < t.len() {
                    assert(t[j] == s[j]);
                }
            }
        }
        if keys_increasing(s) {
            assert(keys_increasing(t)) by {
                assert forall|a: int, b: int| 0 <= a < b < t.len() implies parts_lt(
                    #[trigger] t[a].0.parts(),
                    #[trigger] t[b].0.parts(),
                ) by {
                    assert(t[a] == s[a] && t[b] == s[b]);
                }
            }
            assert forall|j: int| 0 <= j < s.len() implies #[trigger] entries_map(s)[s[j].0.parts()]
                == s[j].1.parts() by {
                if j < t.len() {
                    assert(t[j] == s[j]);
                    lemma_parts_lt_asymmetric(s[j].0.parts(), s.last().0.parts());
                }
            }
            assert(!entries_map(t).contains_key(s.last().0.parts())) by {
                if entries_map(t).contains_key(s.last().0.parts()) {
                    let j = choose|j: int| 0 <= j < t.len() && #[trigger] t[j].0.parts() == s.last().0.parts();
                    assert(t[j] == s[j]);
                    lemma_parts_lt_asymmetric(s[j].0.parts(), s.last().0.parts());
                }
            }
        }
    }
}

/// Two well-formed entry sequences with equal maps are equal, part by part.
pub proof fn lemma_map_determines_entries<K: Textual, V: Textual>(s: Seq<(K, V)>, t: Seq<(K, V)>)
    requires
        keys_increasing(s),
        keys_increasing(t),
        entries_map(s) == entries_map(t),
    ensures
        s.len() == t.len(),
        forall|j: int|
            0 <= j < s.len() ==> (#[trigger] s[j]).0.parts() == t[j].0.parts() && s[j].1.parts()
                == t[j].1.parts(),
    decreases s.len(),
{
    lemma_entries_map(s);
    lemma_entries_map(t);
    if s.len() == 0 || t.len() == 0 {
        if s.len() > 0 {
            assert(entries_map(s).contains_key(s[0].0.parts()));
        }
        if t.len() > 0 {
            assert(entries_map(t).contains_key(t[0].0.parts()));
        }
    } else {
        let ks = s.last().0.parts();
        let kt = t.last().0.parts();
        // The last keys are the largest in both maps, so they agree.
        assert(ks == kt) by {
            assert(entries_map(t).contains_key(ks));
            assert(entries_map(s).contains_key(kt));
            let a = choose|j: int| 0 <= j < t.len() && #[trigger] t[j].0.parts() == ks;
            let b = choose|j: int| 0 <= j < s.len() && #[trigger] s[j].0.parts() == kt;
            if ks != kt {
                if a < t.len() - 1 {
                    assert(parts_lt(t[a].0.parts(), t.last().0.parts()));
                } else {
                    assert(false);
                }
                if b < s.len() - 1 {
                    assert(parts_lt(s[b].0.parts(), s.last().0.parts()));
                    lemma_parts_lt_asymmetric(ks, kt);
                } else {
                    assert(false);
                }
            }
        }
        let s1 = s.drop_last();
        let t1 = t.drop_last();
        assert(keys_increasing(s1)) by {
            assert forall|a: int, b: int| 0 <= a < b < s1.len() implies parts_lt(
                #[trigger] s1[a].0.parts(),
                #[trigger] s1[b].0.parts(),
            ) by {
                assert(s1[a] == s[a] && s1[b] == s[b]);
            }
        }
        assert(keys_increasing(t1)) by {
            assert forall|a: int, b: int| 0 <= a < b < t1.len() implies parts_lt(
                #[trigger] t1[a].0.parts(),
                #[trigger] t1[b].0.parts(),
            ) by {
                assert(t1[a] == t[a] && t1[b] == t[b]);
            }
        }
        lemma_entries_map(s1);
        lemma_entries_map(t1);
        assert(!entries_map(s1).contains_key(ks)) by {
            if entries_map(s1).contains_key(ks) {
                let j = choose|j: int| 0 <= j < s1.len() && #[trigger] s1[j].0.parts() == ks;
                assert(s1[j] == s[j]);
                lemma_parts_lt_asymmetric(s[j].0.parts(), ks);
            }
        }
        assert(!entries_map(t1).contains_key(ks)) by {
            if entries_map(t1).contains_key(ks) {
                let j = choose|j: int| 0 <= j < t1.len() && #[trigger] t1[j].0.parts() == ks;
                assert(t1[j] == t[j]);
                lemma_parts_lt_asymmetric(t[j].0.parts(), ks);
            }
        }
        assert(entries_map(s1) =~= entries_map(s).remove(ks));
        assert(entries_map(t1) =~= entries_map(t).remove(ks));
        lemma_map_determines_entries(s1, t1);
        assert forall|j: int| 0 <= j < s.len() implies (#[trigger] s[j]).0.parts() == t[j].0.parts()
            && s[j].1.parts() == t[j].1.parts() by {
            if j < s1.len() {
                assert(s1[j] == s[j] && t1[j] == t[j]);
            } else {
                assert(entries_map(s)[ks] == s.last().1.parts());
                assert(entries_map(t)[ks] == t.last().1.parts());
            }
        }
    }
}

/// Entry sequences equal part by part have equal maps.
pub proof fn lemma_entries_equal_maps<K: Textual, V: Textual>(s: Seq<(K, V)>, t: Seq<(K, V)>)
    requires
        s.len() == t.len(),
        forall|j: int|
            0 <= j < s.len() ==> (#[trigger] s[j]).0.parts() == t[j].0.parts() && s[j].1.parts()
                == t[j].1.parts(),
    ensures
        entries_map(s) == entries_map(t),
    decreases s.len(),
{
    if s.len() > 0 {
        let s1 = s.drop_last();
        let t1 = t.drop_last();
        assert forall|j: int| 0 <= j < s1.len() implies (#[trigger] s1[j]).0.parts() == t1[j].0.parts()
            && s1[j].1.parts() == t1[j].1.parts() by {
            assert(s1[j] == s[j] && t1[j] == t[j]);
        }
        lemma_entries_equal_maps(s1, t1);
    }
}

} // verus!

verus! {

// ---------------------------------------------------------------------------
// Key order of a set
// ---------------------------------------------------------------------------

/// Whether `s` strictly increases.
pub open spec fn increasing(s: Seq<Seq<Seq<char>>>) -> bool {
    forall|i: int, j: int| 0 <= i < j < s.len() ==> parts_lt(#[trigger] s[i], #[trigger] s[j])
}

/// The elements of a finite set of keys in increasing order (the order in
/// which an ordered map walks its keys).
pub open spec fn key_order(d: Set<Seq<Seq<char>>>) -> Seq<Seq<Seq<char>>> {
    choose|s: Seq<Seq<Seq<char>>>| increasing(s) && s.to_set() == d
}

/// Two increasing sequences with the same elements are equal.
pub proof fn lemma_increasing_unique(s: Seq<Seq<Seq<char>>>, t: Seq<Seq<Seq<char>>>)
    requires
        increasing(s),
        increasing(t),
        s.to_set() == t.to_set(),
    ensures
        s == t,
    decreases s.len(),
{
    if s.len() == 0 {
        if t.len() > 0 {
            assert(t.to_set().contains(t[0]));
        }
        assert(s =~= t);
    } else {
        assert(s.to_set().contains(s[0]));
        assert(t.to_set().contains(s[0]));
        assert(t.len() > 0);
        assert(t.to_set().contains(t[0]));
        let j = choose|j: int| 0 <= j < t.len() && t[j] == s[0];
        let i = choose|i: int| 0 <= i < s.len() && s[i] == t[0];
        assert(s[0] == t[0]) by {
            if j > 0 {
                assert(parts_lt(t[0], t[j]));
                if i > 0 {
                    assert(parts_lt(s[0], s[i]));
                    lemma_parts_lt_asymmetric(t[0], s[0]);
                }
            }
        }
        let s1 = s.drop_first();
        let t1 = t.drop_first();
        assert(increasing(s1)) by {
            assert forall|a: int, b: int| 0 <= a < b < s1.len() implies parts_lt(
                #[trigger] s1[a],
                #[trigger] s1[b],
            ) by {
                assert(s1[a] == s[a + 1] && s1[b] == s[b + 1]);
            }
        }
        assert(increasing(t1)) by {
            assert forall|a: int, b: int| 0 <= a < b < t1.len() implies parts_lt(
                #[trigger] t1[a],
                #[trigger] t1[b],
            ) by {
                assert(t1[a] == t[a + 1] && t1[b] == t[b + 1]);
            }
        }
        assert(s1.to_set() =~= t1.to_set()) by {
            assert forall|x| s1.to_set().contains(x) implies t1.to_set().contains(x) by {
                let a = choose|a: int| 0 <= a < s1.len() && s1[a] == x;
                assert(s.to_set().contains(x)) by {
                    assert(s[a + 1] == x);
                }
                let b = choose|b: int| 0 <= b < t.len() && t[b] == x;
                if b == 0 {
                    assert(parts_lt(s[0], s[a + 1]));
                    lemma_parts_lt_irreflexive(x);
                } else {
                    assert(t1[b - 1] == x);
                }
            }
            assert forall|x| t1.to_set().contains(x) implies s1.to_set().contains(x) by {
                let a = choose|a: int| 0 <= a < t1.len() && t1[a] == x;
                assert(t.to_set().contains(x)) by {
                    assert(t[a + 1] == x);
                }
                let b = choose|b: int| 0 <= b < s.len() && s[b] == x;
                if b == 0 {
                    assert(parts_lt(t[0], t[a + 1]));
                    lemma_parts_lt_irreflexive(x);
                } else {
                    assert(s1[b - 1] == x);
                }
            }
        }
        lemma_increasing_unique(s1, t1);
        assert(s =~= t) by {
            assert forall|a: int| 0 <= a < s.len() implies s[a] == t[a] by {
                if a > 0 {
                    assert(s[a] == s1[a - 1] && t[a] == t1[a - 1]);
                }
            }
        }
    }
}

/// The keys of well-formed entries are the key order of their map.
pub proof fn lemma_key_order<K: Textual, V: Textual>(s: Seq<(K, V)>)
    requires
        keys_increasing(s),
    ensures
        key_order(entries_map(s).dom()) == entry_keys(s),
{
    let ks = entry_keys(s);
    lemma_entries_map(s);
    assert(increasing(ks)) by {
        assert forall|i: int, j: int| 0 <= i < j < ks.len() implies parts_lt(
            #[trigger] ks[i],
            #[trigger] ks[j],
        ) by {
            assert(ks[i] == s[i].0.parts() && ks[j] == s[j].0.parts());
        }
    }
    assert(ks.to_set() =~= entries_map(s).dom()) by {
        assert forall|k| ks.to_set().contains(k) implies entries_map(s).dom().contains(k) by {
            let i = choose|i: int| 0 <= i < ks.len() && ks[i] == k;
            assert(s[i].0.parts() == k);
        }
        assert forall|k| entries_map(s).dom().contains(k) implies ks.to_set().contains(k) by {
            let i = choose|i: int| 0 <= i < s.len() && #[trigger] s[i].0.parts() == k;
            assert(ks[i] == k);
        }
    }
    let c = key_order(entries_map(s).dom());
    assert(increasing(c) && c.to_set() == entries_map(s).dom());
    lemma_increasing_unique(c, ks);
}

/// A finite non-empty set of keys has a least element.
proof fn lemma_least_key(d: Set<Seq<Seq<char>>>) -> (m: Seq<Seq<char>>)
    requires
        d.finite(),
        d.len() > 0,
    ensures
        d.contains(m),
        forall|x: Seq<Seq<char>>| #[trigger] d.contains(x) && x != m ==> parts_lt(m, x),
    decreases d.len(),
{
    let x = d.choose();
    if d.len() == 1 {
        assert forall|y: Seq<Seq<char>>| #[trigger] d.contains(y) implies y == x by {
            if y != x {
                assert(d.remove(x).contains(y));
                assert(d.remove(x).len() == 0);
            }
        }
        x
    } else {
        let rest = d.remove(x);
        let m = lemma_least_key(rest);
        lemma_parts_lt_total(x, m);
        if parts_lt(x, m) {
            assert forall|y: Seq<Seq<char>>| #[trigger] d.contains(y) && y != x implies parts_lt(x, y) by {
                if y != m {
                    assert(rest.contains(y));
                    lemma_parts_lt_transitive(x, m, y);
                }
            }
            x
        } else {
            assert forall|y: Seq<Seq<char>>| #[trigger] d.contains(y) && y != m implies parts_lt(m, y) by {
                if y != x {
                    assert(rest.contains(y));
                }
            }
            m
        }
    }
}

/// Every finite set of keys has a key order: `key_order` is an increasing
/// sequence of exactly its elements.
pub proof fn lemma_key_order_exists(d: Set<Seq<Seq<char>>>)
    requires
        d.finite(),
    ensures
        increasing(key_order(d)),
        key_order(d).to_set() == d,
    decreases d.len(),
{
    if d.len() == 0 {
        let e = Seq::<Seq<Seq<char>>>::empty();
        assert(e.to_set() =~= d) by {
            assert forall|x| d.contains(x) implies false by {
                assert(d.len() > 0) by {
                    vstd::set_lib::lemma_set_empty_equivalency_len(d);
                }
            }
        }
        assert(increasing(e) && e.to_set() == d);
    } else {
        let m = lemma_least_key(d);
        let rest = d.remove(m);
        lemma_key_order_exists(rest);
        let t = key_order(rest);
        let s = seq![m] + t;
        assert(increasing(s)) by {
            assert forall|i: int, j: int| 0 <= i < j < s.len() implies parts_lt(
                #[trigger] s[i],
                #[trigger] s[j],
            ) by {
                if i == 0 {
                    assert(s[j] == t[j - 1]);
                    assert(t.to_set().contains(t[j - 1]));
                } else {
                    assert(s[i] == t[i - 1] && s[j] == t[j - 1]);
                }
            }
        }
        assert(s.to_set() =~= d) by {
            assert forall|x| s.to_set().contains(x) implies d.contains(x) by {
                let i = choose|i: int| 0 <= i < s.len() && s[i] == x;
                if i > 0 {
                    assert(s[i] == t[i - 1]);
                    assert(t.to_set().contains(t[i - 1]));
                }
            }
            assert forall|x| d.contains(x) implies s.to_set().contains(x) by {
                if x == m {
                    assert(s[0] == m);
                } else {
                    assert(rest.contains(x));
                    assert(t.to_set().contains(x));
                    let i = choose|i: int| 0 <= i < t.len() && t[i] == x;
                    assert(s[i + 1] == x);
                }
            }
        }
        assert(increasing(s) && s.to_set() == d);
    }
}

} // verus!
