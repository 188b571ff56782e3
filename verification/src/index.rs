//! The cache that records, path by path, what is known to be stored.

use vstd::prelude::*;
use crate::object::ObjectHash;

verus! {

/// What the cache knows of a path's content.
#[derive(Clone, Copy, Debug, PartialEq, Eq)]
pub enum Cached {
    /// The content is stored under this digest.
    Hashed(ObjectHash),
    /// The path was deleted.
    Removed,
    /// Nothing valid is known; the file has to be read.
    Unhashed,
}

/// The record that the cache keeps for one path.
#[derive(Clone, Copy, Debug, PartialEq, Eq)]
pub struct IndexEntry {
    pub is_tracked: bool,
    pub is_added: bool,
    pub cached: Option<Cached>,
}

impl IndexEntry {
    /// This record with its content confirmed as stored under `hash`.
    pub open spec fn cleaned(self, hash: ObjectHash) -> IndexEntry {
        IndexEntry {
            is_tracked: self.is_tracked,
            is_added: self.is_added,
            cached: Some(Cached::Hashed(hash)),
        }
    }

    /// The record of a path that was not known before its content was
    /// confirmed as stored under `hash`.
    pub open spec fn confirmed(hash: ObjectHash) -> IndexEntry {
        IndexEntry { is_tracked: false, is_added: false, cached: Some(Cached::Hashed(hash)) }
    }

    /// What the cache knows of the content, if anything.
    pub fn get(&self) -> (r: Option<Cached>)
        ensures
            r == self.cached,
    {
        self.cached
    }

    /// Confirms the content as stored under `hash`; the flags stay.
    pub fn clean(&mut self, hash: ObjectHash)
        ensures
            *final(self) == old(self).cleaned(hash),
    {
        self.cached = Some(Cached::Hashed(hash));
    }
}

/// The content of an index: its paths in the order in which they are
/// walked, each with its record.
pub type Entries = Seq<(Seq<char>, IndexEntry)>;

/// No path occurs twice.
pub open spec fn distinct_paths(entries: Entries) -> bool {
    forall|i: int, j: int| 0 <= i < j < entries.len() ==> entries[i].0 != entries[j].0
}

/// Whether `path` stands among the entries.
pub open spec fn holds_path(entries: Entries, path: Seq<char>) -> bool {
    exists|i: int| 0 <= i < entries.len() && entries[i].0 == path
}

/// A place at which `path` stands, where it stands anywhere.
pub open spec fn position(entries: Entries, path: Seq<char>) -> int {
    choose|i: int| 0 <= i < entries.len() && entries[i].0 == path
}

/// The record kept for `path`.
pub open spec fn lookup(entries: Entries, path: Seq<char>) -> Option<IndexEntry> {
    if holds_path(entries, path) {
        Some(entries[position(entries, path)].1)
    } else {
        None
    }
}

/// The entries after `path` got the record `entry`: in place where the
/// path was known, at the end where it was not.
pub open spec fn inserted(entries: Entries, path: Seq<char>, entry: IndexEntry) -> Entries {
    if holds_path(entries, path) {
        entries.update(position(entries, path), (path, entry))
    } else {
        entries.push((path, entry))
    }
}

/// The entries after the content of `path` was confirmed as stored under
/// `hash`.
pub open spec fn cleaned(entries: Entries, path: Seq<char>, hash: ObjectHash) -> Entries {
    match lookup(entries, path) {
        Some(entry) => inserted(entries, path, entry.cleaned(hash)),
        None => inserted(entries, path, IndexEntry::confirmed(hash)),
    }
}

/// What a stored list of records stands for.
pub open spec fn entries_of(raw: Seq<(String, IndexEntry)>) -> Entries {
    raw.map_values(|e: (String, IndexEntry)| (e.0@, e.1))
}

/// The per-path cache. No path stands in it twice.
#[derive(Debug, PartialEq, Eq)]
pub struct Index {
    entries: Vec<(String, IndexEntry)>,
}

impl View for Index {
    type V = Entries;

    closed spec fn view(&self) -> Entries {
        entries_of(self.entries@)
    }
}

impl Clone for Index {
    fn clone(&self) -> (r: Index)
        ensures
            r@ == self@,
    {
        proof {
            use_type_invariant(self);
        }
        let n = self.entries.len();
        let mut entries: Vec<(String, IndexEntry)> = Vec::new();
        let mut i: usize = 0;
        while i < n
            invariant
                n == self.entries@.len(),
                i <= n,
                entries@ == self.entries@.take(i as int),
            decreases n - i,
        {
            entries.push((self.entries[i].0.clone(), self.entries[i].1));
            assert(entries@ =~= self.entries@.take(i + 1));
            i += 1;
        }
        assert(entries@ =~= self.entries@);
        Index { entries }
    }
}

impl Index {
    /// The invariant of the type: no path stands in an index twice.
    #[verifier::type_invariant]
    pub open spec fn wf(&self) -> bool {
        distinct_paths(self@)
    }

    /// An index without paths.
    pub fn new() -> (r: Index)
        ensures
            r@ == Entries::empty(),
    {
        let r = Index { entries: Vec::new() };
        assert(r@ =~= Entries::empty());
        r
    }

    /// The number of paths.
    pub fn len(&self) -> (r: usize)
        ensures
            r == self@.len(),
    {
        self.entries.len()
    }

    /// The paths with their records, in the order in which they are walked.
    pub fn entries(&self) -> (r: &Vec<(String, IndexEntry)>)
        ensures
            entries_of(r@) == self@,
    {
        &self.entries
    }

    /// The place at which `path` stands.
    fn find(&self, path: &String) -> (r: Option<usize>)
        ensures
            match r {
                Some(i) => i < self@.len() && self@[i as int].0 == path@ && position(self@, path@)
                    == i,
                None => !holds_path(self@, path@),
            },
            r is Some <==> holds_path(self@, path@),
    {
        proof {
            use_type_invariant(self);
        }
        let n = self.entries.len();
        let mut i: usize = 0;
        while i < n
            invariant
                self.wf(),
                n == self.entries@.len(),
                i <= n,
                forall|k: int| 0 <= k < i ==> self@[k].0 != path@,
            decreases n - i,
        {
            if self.entries[i].0 == *path {
                proof {
                    lemma_position_unique(self@, path@, i as int);
                }
                return Some(i);
            }
            i += 1;
        }
        None
    }

    /// The record kept for `path`.
    pub fn get(&self, path: &str) -> (r: Option<IndexEntry>)
        ensures
            r == lookup(self@, path@),
    {
        let owned = path.to_owned();
        match self.find(&owned) {
            Some(i) => Some(self.entries[i].1),
            None => None,
        }
    }

    /// Gives `path` the record `entry`, whether or not the path was known.
    pub fn insert(&mut self, path: String, entry: IndexEntry)
        ensures
            final(self)@ == inserted(old(self)@, path@, entry),
            lookup(final(self)@, path@) == Some(entry),
            forall|other: Seq<char>|
                other != path@ ==> lookup(final(self)@, other) == lookup(old(self)@, other),
    {
        proof {
            use_type_invariant(&*self);
            lemma_inserted(self@, path@, entry);
        }
        let found = self.find(&path);
        let mut entries: Vec<(String, IndexEntry)> = Vec::new();
        core::mem::swap(&mut self.entries, &mut entries);
        match found {
            Some(i) => {
                entries.set(i, (path, entry));
            },
            None => {
                entries.push((path, entry));
            },
        }
        assert(entries_of(entries@) =~= inserted(old(self)@, path@, entry));
        self.entries = entries;
    }

    /// Confirms the content of `path` as stored under `hash`. A path that
    /// was not known enters the index with both flags unset.
    pub fn clean(&mut self, path: String, hash: ObjectHash)
        ensures
            final(self)@ == cleaned(old(self)@, path@, hash),
            lookup(final(self)@, path@) == Some(
                match lookup(old(self)@, path@) {
                    Some(entry) => entry.cleaned(hash),
                    None => IndexEntry::confirmed(hash),
                },
            ),
            forall|other: Seq<char>|
                other != path@ ==> lookup(final(self)@, other) == lookup(old(self)@, other),
    {
        let entry = match self.get(path.as_str()) {
            Some(known) => {
                let mut known = known;
                known.clean(hash);
                known
            },
            None => IndexEntry {
                is_tracked: false,
                is_added: false,
                cached: Some(Cached::Hashed(hash)),
            },
        };
        self.insert(path, entry);
    }
}

/// The part of a repository that the engine works on: the cache and the
/// tree that the current branch points at.
#[derive(Debug, PartialEq, Eq)]
pub struct Repository {
    pub index: Index,
    pub head: Option<ObjectHash>,
}

impl Clone for Repository {
    fn clone(&self) -> (r: Repository)
        ensures
            r.index@ == self.index@,
            r.head == self.head,
    {
        Repository { index: self.index.clone(), head: self.head }
    }
}

impl Repository {
    /// A repository with the given cache and branch head.
    pub fn new(index: Index, head: Option<ObjectHash>) -> (r: Repository)
        ensures
            r.index == index,
            r.head == head,
    {
        Repository { index, head }
    }

    /// The tree that the current branch points at, if it has one.
    pub fn head(&self) -> (r: Option<ObjectHash>)
        ensures
            r == self.head,
    {
        self.head
    }
}

/// Where `path` stands, it stands at one place only.
pub proof fn lemma_position_unique(entries: Entries, path: Seq<char>, i: int)
    requires
        distinct_paths(entries),
        0 <= i < entries.len(),
        entries[i].0 == path,
    ensures
        holds_path(entries, path),
        position(entries, path) == i,
        lookup(entries, path) == Some(entries[i].1),
{
    let p = position(entries, path);
    if p < i {
        assert(entries[p].0 != entries[i].0);
    } else if i < p {
        assert(entries[i].0 != entries[p].0);
    }
}

/// Giving a path a record keeps the paths distinct, and the path then
/// has that record while every other path keeps its own.
pub proof fn lemma_inserted(entries: Entries, path: Seq<char>, entry: IndexEntry)
    requires
        distinct_paths(entries),
    ensures
        distinct_paths(inserted(entries, path, entry)),
        lookup(inserted(entries, path, entry), path) == Some(entry),
        forall|other: Seq<char>|
            other != path ==> lookup(inserted(entries, path, entry), other) == lookup(
                entries,
                other,
            ),
{
    let after = inserted(entries, path, entry);
    let at = if holds_path(entries, path) {
        position(entries, path)
    } else {
        entries.len() as int
    };
    assert(after.len() > at && after[at] == (path, entry));
    assert forall|k: int| 0 <= k < entries.len() && k != at implies after[k] == entries[k] by {}
    assert forall|i: int, j: int| 0 <= i < j < after.len() implies after[i].0 != after[j].0 by {
        if i == at || j == at {
            let k = if i == at { j } else { i };
            if holds_path(entries, path) {
                assert(entries[k].0 != entries[at].0);
            } else {
                assert(after[k] == entries[k]);
            }
        }
    }
    lemma_position_unique(after, path, at);
    assert forall|other: Seq<char>| other != path implies lookup(after, other) == lookup(
        entries,
        other,
    ) by {
        if holds_path(entries, other) {
            let k = position(entries, other);
            assert(after[k] == entries[k]);
            lemma_position_unique(after, other, k);
        } else if holds_path(after, other) {
            let k = position(after, other);
            assert(k != at);
            assert(entries[k].0 == other);
        }
    }
}

/// Confirming a path keeps the paths distinct. The path then has its
/// digest and the flags that it had, or none where it was not known, and
/// every other path keeps its record.
pub proof fn lemma_cleaned(entries: Entries, path: Seq<char>, hash: ObjectHash)
    requires
        distinct_paths(entries),
    ensures
        distinct_paths(cleaned(entries, path, hash)),
        lookup(cleaned(entries, path, hash), path) == Some(
            match lookup(entries, path) {
                Some(entry) => entry.cleaned(hash),
                None => IndexEntry::confirmed(hash),
            },
        ),
        forall|other: Seq<char>|
            other != path ==> lookup(cleaned(entries, path, hash), other) == lookup(
                entries,
                other,
            ),
{
    match lookup(entries, path) {
        Some(entry) => lemma_inserted(entries, path, entry.cleaned(hash)),
        None => lemma_inserted(entries, path, IndexEntry::confirmed(hash)),
    }
}

} // verus!
