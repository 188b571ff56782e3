//! Which paths enter a commit, and how each of them gets its place in
//! the tree.

use vstd::prelude::*;
use globset::GlobSet;
use crate::index::{Cached, Entries, IndexEntry};
use crate::object::ObjectHash;
use crate::pattern::{picked_paths, picks};

verus! {

/// How a path gets its place in the tree.
#[derive(Clone, Copy, Debug, PartialEq, Eq)]
pub enum Resolution {
    /// Known without reading anything: a digest, or no object where the
    /// path was deleted.
    Ready(Option<ObjectHash>),
    /// The file has to be read, split and hashed.
    Cold,
}

/// The resolution that a cached state leads to.
pub open spec fn resolution_of(cached: Option<Cached>) -> Resolution {
    match cached {
        Some(Cached::Hashed(hash)) => Resolution::Ready(Some(hash)),
        Some(Cached::Removed) => Resolution::Ready(None),
        Some(Cached::Unhashed) => Resolution::Cold,
        None => Resolution::Cold,
    }
}

/// Decides from the cache alone how a path is resolved.
pub fn resolve(cached: Option<Cached>) -> (r: Resolution)
    ensures
        r == resolution_of(cached),
{
    match cached {
        Some(Cached::Hashed(hash)) => Resolution::Ready(Some(hash)),
        Some(Cached::Removed) => Resolution::Ready(None),
        Some(Cached::Unhashed) => Resolution::Cold,
        None => Resolution::Cold,
    }
}

/// Whether a path enters the commit: it is included, added or followed,
/// and it is not excluded.
pub open spec fn qualifies(
    path: Seq<char>,
    entry: IndexEntry,
    included: Set<Seq<char>>,
    excluded: Set<Seq<char>>,
) -> bool {
    (included.contains(path) || entry.is_added || entry.is_tracked) && !excluded.contains(path)
}

/// Decides whether a path enters the commit.
pub fn select(
    path: &str,
    entry: &IndexEntry,
    include_opt: Option<&GlobSet>,
    exclude_opt: Option<&GlobSet>,
) -> (r: bool)
    ensures
        r == qualifies(path@, *entry, picked_paths(include_opt), picked_paths(exclude_opt)),
{
    let is_included = picks(include_opt, path);
    let is_excluded = picks(exclude_opt, path);
    (is_included || entry.is_added || entry.is_tracked) && !is_excluded
}

/// The paths of a commit with their resolutions.
pub type Slots = Seq<(Seq<char>, Resolution)>;

/// The paths of the index that enter the commit, in the order of the
/// index, each with the resolution that its cached state leads to.
pub open spec fn planned(entries: Entries, included: Set<Seq<char>>, excluded: Set<Seq<char>>)
    -> Slots {
    entries.filter_map(
        |e: (Seq<char>, IndexEntry)|
            if qualifies(e.0, e.1, included, excluded) {
                Some((e.0, resolution_of(e.1.cached)))
            } else {
                None
            },
    )
}

/// Planning one more entry adds its slot where the entry qualifies, and
/// nothing where it does not.
pub proof fn lemma_planned_push(
    entries: Entries,
    last: (Seq<char>, IndexEntry),
    included: Set<Seq<char>>,
    excluded: Set<Seq<char>>,
)
    ensures
        planned(entries.push(last), included, excluded) == if qualifies(
            last.0,
            last.1,
            included,
            excluded,
        ) {
            planned(entries, included, excluded).push((last.0, resolution_of(last.1.cached)))
        } else {
            planned(entries, included, excluded)
        },
{
    let longer = entries.push(last);
    assert(longer.drop_last() =~= entries);
    assert(longer.last() == last);
}

/// Every slot of a plan stems from an entry of the index that
/// qualifies, and holds the resolution of that entry's cached state.
pub proof fn lemma_planned_slot(
    entries: Entries,
    included: Set<Seq<char>>,
    excluded: Set<Seq<char>>,
    k: int,
) -> (i: int)
    requires
        0 <= k < planned(entries, included, excluded).len(),
    ensures
        0 <= i < entries.len(),
        qualifies(entries[i].0, entries[i].1, included, excluded),
        planned(entries, included, excluded)[k] == (
            entries[i].0,
            resolution_of(entries[i].1.cached),
        ),
    decreases entries.len(),
{
    let last = entries.last();
    let earlier = entries.drop_last();
    assert(earlier.push(last) =~= entries);
    lemma_planned_push(earlier, last, included, excluded);
    if k < planned(earlier, included, excluded).len() {
        lemma_planned_slot(earlier, included, excluded, k)
    } else {
        entries.len() - 1
    }
}

/// Every entry of the index that qualifies has a slot in the plan, with
/// the resolution of its cached state.
pub proof fn lemma_entry_has_slot(
    entries: Entries,
    included: Set<Seq<char>>,
    excluded: Set<Seq<char>>,
    i: int,
) -> (k: int)
    requires
        0 <= i < entries.len(),
        qualifies(entries[i].0, entries[i].1, included, excluded),
    ensures
        0 <= k < planned(entries, included, excluded).len(),
        planned(entries, included, excluded)[k] == (
            entries[i].0,
            resolution_of(entries[i].1.cached),
        ),
    decreases entries.len(),
{
    let last = entries.last();
    let earlier = entries.drop_last();
    assert(earlier.push(last) =~= entries);
    lemma_planned_push(earlier, last, included, excluded);
    if i < entries.len() - 1 {
        lemma_entry_has_slot(earlier, included, excluded, i)
    } else {
        planned(earlier, included, excluded).len() as int
    }
}

} // verus!
