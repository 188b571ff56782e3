//! A commit under construction: the paths that enter it, which of them
//! still have to be read, and what is handed on once every path has its
//! digest.

use vstd::prelude::*;
use globset::GlobSet;
use crate::error::Error;
use crate::index::{Cached, Entries, Index, distinct_paths, entries_of};
use crate::object::ObjectHash;
use crate::pattern::picked_paths;
use crate::selection::{
    Resolution, Slots, lemma_entry_has_slot, lemma_planned_push, lemma_planned_slot, planned,
    qualifies, resolution_of, resolve, select,
};
use crate::tree::{Baseline, DeltaRequest, TreeOutcome, ops_of, subtree_of, subtree_result};

verus! {

/// A point in time: seconds since the epoch, and the nanoseconds within
/// the second.
#[derive(Clone, Copy, Debug, PartialEq, Eq)]
pub struct Timestamp {
    pub seconds: i64,
    pub nanos: u32,
}

/// A commit before it is hashed.
#[derive(Debug, PartialEq, Eq)]
pub struct CommitObject {
    pub subtree: ObjectHash,
    pub parents: Vec<ObjectHash>,
    pub message: String,
    pub timestamp: Timestamp,
}

/// What a stored list of slots stands for.
pub open spec fn slots_of(raw: Seq<(String, Resolution)>) -> Slots {
    raw.map_values(|s: (String, Resolution)| (s.0@, s.1))
}

/// What a stored list of paths stands for.
pub open spec fn paths_of(raw: Seq<String>) -> Seq<Seq<char>> {
    raw.map_values(|p: String| p@)
}

/// Whether slot `i` holds `path`, still waiting to be read.
pub open spec fn is_cold_at(slots: Slots, path: Seq<char>, i: int) -> bool {
    0 <= i < slots.len() && slots[i] == (path, Resolution::Cold)
}

/// Whether `path` is still waiting to be read.
pub open spec fn awaits(slots: Slots, path: Seq<char>) -> bool {
    exists|i: int| is_cold_at(slots, path, i)
}

/// The first slot in which `path` waits to be read.
pub open spec fn first_cold(slots: Slots, path: Seq<char>) -> int {
    choose|i: int|
        is_cold_at(slots, path, i) && forall|k: int| 0 <= k < i ==> !is_cold_at(slots, path, k)
}

/// The slots after the file at `path` was read and hashed.
pub open spec fn filled(slots: Slots, path: Seq<char>, hash: ObjectHash) -> Slots {
    slots.update(first_cold(slots, path), (path, Resolution::Ready(Some(hash))))
}

/// The paths that have to be read, in the order of the slots.
pub open spec fn cold_paths_of(slots: Slots) -> Seq<Seq<char>> {
    slots.filter_map(
        |s: (Seq<char>, Resolution)|
            if s.1 is Cold {
                Some(s.0)
            } else {
                None
            },
    )
}

/// No path waits to be read any more.
pub open spec fn resolved(slots: Slots) -> bool {
    forall|i: int| 0 <= i < slots.len() ==> (#[trigger] slots[i]).1 is Ready
}

/// The entry that a slot contributes to the tree: the path with its
/// digest, or with none where the path was deleted.
pub open spec fn tree_entry(slot: (Seq<char>, Resolution)) -> (Seq<char>, Option<ObjectHash>) {
    match slot.1 {
        Resolution::Ready(object) => (slot.0, object),
        Resolution::Cold => (slot.0, None),
    }
}

/// The entries that resolved slots contribute to the tree.
pub open spec fn tree_entries(slots: Slots) -> Seq<(Seq<char>, Option<ObjectHash>)> {
    slots.map_values(|s: (Seq<char>, Resolution)| tree_entry(s))
}

/// What a construction ends in: a refusal while a path still waits to be
/// read, else the commit that refers to the tree, or the failure of the
/// tree.
pub open spec fn commit_of(
    is_resolved: bool,
    subtree: Result<ObjectHash, Error>,
    parents: Vec<ObjectHash>,
    message: String,
    timestamp: Timestamp,
) -> Result<CommitObject, Error> {
    if !is_resolved {
        Err(Error::Absurd)
    } else {
        match subtree {
            Ok(hash) => Ok(CommitObject { subtree: hash, parents, message, timestamp }),
            Err(error) => Err(error),
        }
    }
}

/// A commit under construction: the paths that enter it, each with its
/// resolution, and what the commit will say.
#[derive(Debug)]
pub struct CommitJob {
    slots: Vec<(String, Resolution)>,
    root: Option<ObjectHash>,
    parents: Vec<ObjectHash>,
    message: String,
    timestamp: Timestamp,
}

impl CommitJob {
    /// The paths of the commit with their resolutions.
    pub closed spec fn slots(&self) -> Slots {
        slots_of(self.slots@)
    }

    /// The tree that the commit starts from.
    pub closed spec fn root(&self) -> Option<ObjectHash> {
        self.root
    }

    /// The parents that the commit will name.
    pub closed spec fn parents(&self) -> Vec<ObjectHash> {
        self.parents
    }

    /// The message that the commit will carry.
    pub closed spec fn message(&self) -> String {
        self.message
    }

    /// The time that the commit will carry.
    pub closed spec fn timestamp(&self) -> Timestamp {
        self.timestamp
    }

    /// Selects the paths of `index` and resolves each from its cached
    /// state. Nothing is read.
    pub fn plan(
        index: &Index,
        root: Option<ObjectHash>,
        include_opt: Option<&GlobSet>,
        exclude_opt: Option<&GlobSet>,
        parents: Vec<ObjectHash>,
        message: String,
        timestamp: Timestamp,
    ) -> (job: CommitJob)
        ensures
            job.slots() == planned(index@, picked_paths(include_opt), picked_paths(exclude_opt)),
            job.root() == root,
            job.parents() == parents,
            job.message() == message,
            job.timestamp() == timestamp,
    {
        let entries = index.entries();
        let n = entries.len();
        let ghost included = picked_paths(include_opt);
        let ghost excluded = picked_paths(exclude_opt);
        let mut slots: Vec<(String, Resolution)> = Vec::new();
        let mut i: usize = 0;
        assert(entries_of(entries@.take(0)) =~= Entries::empty());
        while i < n
            invariant
                n == entries@.len(),
                i <= n,
                included == picked_paths(include_opt),
                excluded == picked_paths(exclude_opt),
                slots_of(slots@) == planned(
                    entries_of(entries@.take(i as int)),
                    included,
                    excluded,
                ),
            decreases n - i,
        {
            let path = &entries[i].0;
            let entry = &entries[i].1;
            proof {
                let before = entries_of(entries@.take(i as int));
                assert(entries_of(entries@.take(i + 1)) =~= before.push((path@, *entry)));
                lemma_planned_push(before, (path@, *entry), included, excluded);
            }
            if select(path.as_str(), entry, include_opt, exclude_opt) {
                let ghost old_slots = slots@;
                slots.push((path.clone(), resolve(entry.get())));
                assert(slots_of(slots@) =~= slots_of(old_slots).push(
                    (path@, resolution_of(entry.cached)),
                ));
            }
            i += 1;
        }
        assert(entries@.take(n as int) =~= entries@);
        CommitJob { slots, root, parents, message, timestamp }
    }

    /// The paths that have to be read, split and hashed.
    pub fn cold_paths(&self) -> (r: Vec<String>)
        ensures
            paths_of(r@) == cold_paths_of(self.slots()),
    {
        let n = self.slots.len();
        let mut paths: Vec<String> = Vec::new();
        let mut i: usize = 0;
        assert(slots_of(self.slots@.take(0)) =~= Slots::empty());
        while i < n
            invariant
                n == self.slots@.len(),
                i <= n,
                paths_of(paths@) == cold_paths_of(slots_of(self.slots@.take(i as int))),
            decreases n - i,
        {
            proof {
                let before = slots_of(self.slots@.take(i as int));
                let slot = (self.slots@[i as int].0@, self.slots@[i as int].1);
                assert(slots_of(self.slots@.take(i + 1)) =~= before.push(slot));
                lemma_cold_paths_push(before, slot);
            }
            match self.slots[i].1 {
                Resolution::Cold => {
                    let ghost old_paths = paths@;
                    paths.push(self.slots[i].0.clone());
                    assert(paths_of(paths@) =~= paths_of(old_paths).push(self.slots@[i as int].0@));
                },
                Resolution::Ready(_) => {},
            }
            i += 1;
        }
        assert(self.slots@.take(n as int) =~= self.slots@);
        paths
    }

    /// Whether every path has its resolution.
    pub fn is_resolved(&self) -> (r: bool)
        ensures
            r == resolved(self.slots()),
    {
        let n = self.slots.len();
        let mut i: usize = 0;
        while i < n
            invariant
                n == self.slots@.len(),
                i <= n,
                forall|k: int| 0 <= k < i ==> (#[trigger] self.slots()[k]).1 is Ready,
            decreases n - i,
        {
            match self.slots[i].1 {
                Resolution::Cold => {
                    assert(self.slots()[i as int].1 is Cold);
                    return false;
                },
                Resolution::Ready(_) => {},
            }
            i += 1;
        }
        true
    }

    /// Records that the file at `path` was read and hashed to `hash`.
    /// A path that does not wait to be read is refused.
    pub fn accept(self, path: &str, hash: ObjectHash) -> (r: Result<CommitJob, Error>)
        ensures
            match r {
                Ok(job) => {
                    &&& awaits(self.slots(), path@)
                    &&& job.slots() == filled(self.slots(), path@, hash)
                    &&& job.root() == self.root()
                    &&& job.parents() == self.parents()
                    &&& job.message() == self.message()
                    &&& job.timestamp() == self.timestamp()
                },
                Err(error) => !awaits(self.slots(), path@) && error == Error::Absurd,
            },
    {
        let mut job = self;
        let owned = path.to_owned();
        let n = job.slots.len();
        let mut i: usize = 0;
        while i < n
            invariant
                job == self,
                owned@ == path@,
                n == job.slots@.len(),
                i <= n,
                forall|k: int| 0 <= k < i ==> !is_cold_at(self.slots(), path@, k),
            decreases n - i,
        {
            let waits = match job.slots[i].1 {
                Resolution::Cold => job.slots[i].0 == owned,
                Resolution::Ready(_) => false,
            };
            if waits {
                proof {
                    let at = i as int;
                    assert(is_cold_at(self.slots(), path@, at));
                    let first = first_cold(self.slots(), path@);
                    assert(first == at) by {
                        if first < at {
                            assert(!is_cold_at(self.slots(), path@, first));
                        }
                    }
                }
                job.slots.set(i, (owned, Resolution::Ready(Some(hash))));
                assert(job.slots() =~= filled(self.slots(), path@, hash));
                return Ok(job);
            }
            i += 1;
        }
        Err(Error::Absurd)
    }

    /// The tree to compute, once every path has its resolution: the
    /// commit's root as the baseline, and one entry for each path.
    pub fn request(&self) -> (r: Option<DeltaRequest>)
        ensures
            match r {
                Some(request) => {
                    &&& resolved(self.slots())
                    &&& request.baseline == Baseline::Head(self.root())
                    &&& ops_of(request.entries@) == tree_entries(self.slots())
                },
                None => !resolved(self.slots()),
            },
    {
        let n = self.slots.len();
        let mut entries: Vec<(String, Option<ObjectHash>)> = Vec::new();
        let mut i: usize = 0;
        while i < n
            invariant
                n == self.slots@.len(),
                i <= n,
                entries@.len() == i,
                forall|k: int| 0 <= k < i ==> (#[trigger] self.slots()[k]).1 is Ready,
                forall|k: int|
                    0 <= k < i ==> ops_of(entries@)[k] == tree_entry(#[trigger] self.slots()[k]),
            decreases n - i,
        {
            match self.slots[i].1 {
                Resolution::Cold => {
                    assert(self.slots()[i as int].1 is Cold);
                    return None;
                },
                Resolution::Ready(object) => {
                    entries.push((self.slots[i].0.clone(), object));
                },
            }
            i += 1;
        }
        assert(ops_of(entries@) =~= tree_entries(self.slots()));
        Some(DeltaRequest { baseline: Baseline::Head(self.root), entries })
    }

    /// Ends the construction with the outcome of the tree's computation:
    /// the commit that refers to the tree, or the failure.
    pub fn assemble(self, outcome: TreeOutcome) -> (r: Result<CommitObject, Error>)
        ensures
            r == commit_of(
                resolved(self.slots()),
                subtree_of(outcome),
                self.parents(),
                self.message(),
                self.timestamp(),
            ),
    {
        if !self.is_resolved() {
            return Err(Error::Absurd);
        }
        match subtree_result(outcome) {
            Ok(subtree) => Ok(
                CommitObject {
                    subtree,
                    parents: self.parents,
                    message: self.message,
                    timestamp: self.timestamp,
                },
            ),
            Err(error) => Err(error),
        }
    }
}

/// Whether `slots` can be what has become of `plan`: the same paths in
/// the same order, each slot that was ready as it was, each that was
/// cold either still cold or filled.
pub open spec fn follows(plan: Slots, slots: Slots) -> bool {
    &&& slots.len() == plan.len()
    &&& forall|k: int|
        0 <= k < plan.len() ==> {
            &&& (#[trigger] slots[k]).0 == plan[k].0
            &&& plan[k].1 is Ready ==> slots[k] == plan[k]
            &&& plan[k].1 is Cold ==> slots[k].1 is Cold || slots[k].1 matches Resolution::Ready(
                Some(_),
            )
        }
}

/// Planning one more slot adds its path to those that have to be read
/// where the slot is cold, and nothing where it is not.
pub proof fn lemma_cold_paths_push(slots: Slots, last: (Seq<char>, Resolution))
    ensures
        cold_paths_of(slots.push(last)) == if last.1 is Cold {
            cold_paths_of(slots).push(last.0)
        } else {
            cold_paths_of(slots)
        },
{
    let longer = slots.push(last);
    assert(longer.drop_last() =~= slots);
    assert(longer.last() == last);
}

/// The paths to read are the paths of the cold slots.
pub proof fn lemma_cold_paths(slots: Slots, path: Seq<char>)
    ensures
        cold_paths_of(slots).contains(path) <==> awaits(slots, path),
    decreases slots.len(),
{
    if slots.len() > 0 {
        let last = slots.last();
        let earlier = slots.drop_last();
        assert(earlier.push(last) =~= slots);
        lemma_cold_paths_push(earlier, last);
        lemma_cold_paths(earlier, path);
        let cold = cold_paths_of(slots);
        let cold_earlier = cold_paths_of(earlier);
        if awaits(slots, path) {
            let i = choose|i: int| is_cold_at(slots, path, i);
            if i < earlier.len() {
                assert(is_cold_at(earlier, path, i));
                let at = choose|at: int| 0 <= at < cold_earlier.len() && cold_earlier[at] == path;
                assert(cold[at] == path);
            } else {
                assert(cold[cold.len() - 1] == path);
            }
        }
        if cold.contains(path) {
            let at = choose|at: int| 0 <= at < cold.len() && cold[at] == path;
            if at < cold_earlier.len() {
                assert(cold_earlier[at] == path);
                let i = choose|i: int| is_cold_at(earlier, path, i);
                assert(is_cold_at(slots, path, i));
            } else {
                assert(is_cold_at(slots, path, slots.len() - 1));
            }
        }
    } else {
        assert(cold_paths_of(slots) =~= Seq::empty());
    }
}

/// Below a slot in which `path` waits there is a first such slot.
proof fn lemma_least_cold(slots: Slots, path: Seq<char>, i: int) -> (least: int)
    requires
        is_cold_at(slots, path, i),
    ensures
        is_cold_at(slots, path, least),
        forall|k: int| 0 <= k < least ==> !is_cold_at(slots, path, k),
    decreases i,
{
    if exists|k: int| 0 <= k < i && is_cold_at(slots, path, k) {
        let k = choose|k: int| 0 <= k < i && is_cold_at(slots, path, k);
        lemma_least_cold(slots, path, k)
    } else {
        i
    }
}

/// Where `path` waits to be read, the first slot in which it waits is
/// one in which it waits, and it waits in none before.
pub proof fn lemma_first_cold(slots: Slots, path: Seq<char>)
    requires
        awaits(slots, path),
    ensures
        is_cold_at(slots, path, first_cold(slots, path)),
        forall|k: int| 0 <= k < first_cold(slots, path) ==> !is_cold_at(slots, path, k),
{
    let i = choose|i: int| is_cold_at(slots, path, i);
    let least = lemma_least_cold(slots, path, i);
}

/// A plan is what has become of itself before any file was read.
pub proof fn lemma_follows_itself(plan: Slots)
    ensures
        follows(plan, plan),
{
}

/// Filling the slot of a file that was read leaves the slots what has
/// become of the plan.
pub proof fn lemma_filled_follows(plan: Slots, slots: Slots, path: Seq<char>, hash: ObjectHash)
    requires
        follows(plan, slots),
        awaits(slots, path),
    ensures
        follows(plan, filled(slots, path, hash)),
{
    let at = first_cold(slots, path);
    let after = filled(slots, path, hash);
    lemma_first_cold(slots, path);
    assert forall|k: int| 0 <= k < plan.len() implies (#[trigger] after[k]).0 == plan[k].0 && (
    plan[k].1 is Ready ==> after[k] == plan[k]) by {
        assert(slots[k].0 == plan[k].0);
        if k != at {
            assert(after[k] == slots[k]);
        }
    }
}

/// Exclusion wins: a path that is excluded is not read and has no entry
/// in the tree, whatever its flags and whether or not it is included.
pub proof fn lemma_excluded_path_is_absent(
    entries: Entries,
    included: Set<Seq<char>>,
    excluded: Set<Seq<char>>,
    slots: Slots,
    path: Seq<char>,
)
    requires
        follows(planned(entries, included, excluded), slots),
        excluded.contains(path),
    ensures
        !cold_paths_of(planned(entries, included, excluded)).contains(path),
        forall|k: int| 0 <= k < slots.len() ==> (#[trigger] tree_entries(slots)[k]).0 != path,
{
    let plan = planned(entries, included, excluded);
    assert forall|k: int| 0 <= k < plan.len() implies (#[trigger] plan[k]).0 != path by {
        let i = lemma_planned_slot(entries, included, excluded, k);
    }
    lemma_cold_paths(plan, path);
    assert forall|k: int| 0 <= k < slots.len() implies (#[trigger] tree_entries(slots)[k]).0
        != path by {
        assert(slots[k].0 == plan[k].0);
    }
}

/// A slot that was ready in the plan stays as it was: no other slot has
/// its path, the path is not among those to read, and the tree gets what
/// the slot holds.
proof fn lemma_ready_slot_stays(
    entries: Entries,
    included: Set<Seq<char>>,
    excluded: Set<Seq<char>>,
    slots: Slots,
    i: int,
    object: Option<ObjectHash>,
)
    requires
        distinct_paths(entries),
        0 <= i < entries.len(),
        qualifies(entries[i].0, entries[i].1, included, excluded),
        resolution_of(entries[i].1.cached) == Resolution::Ready(object),
        follows(planned(entries, included, excluded), slots),
    ensures
        !cold_paths_of(planned(entries, included, excluded)).contains(entries[i].0),
        tree_entries(slots).contains((entries[i].0, object)),
        forall|k: int|
            0 <= k < slots.len() && (#[trigger] tree_entries(slots)[k]).0 == entries[i].0
                ==> tree_entries(slots)[k].1 == object,
{
    let plan = planned(entries, included, excluded);
    let path = entries[i].0;
    let ready = (path, Resolution::Ready(object));
    assert forall|k: int| 0 <= k < plan.len() && (#[trigger] plan[k]).0 == path implies plan[k]
        == ready by {
        let j = lemma_planned_slot(entries, included, excluded, k);
        if j < i {
            assert(entries[j].0 != entries[i].0);
        } else if i < j {
            assert(entries[i].0 != entries[j].0);
        }
    }
    lemma_cold_paths(plan, path);
    if awaits(plan, path) {
        let k = choose|k: int| is_cold_at(plan, path, k);
        assert(plan[k] == ready);
    }
    let at = lemma_entry_has_slot(entries, included, excluded, i);
    assert(slots[at] == plan[at]);
    assert(tree_entries(slots)[at] == (path, object));
    assert forall|k: int|
        0 <= k < slots.len() && (#[trigger] tree_entries(slots)[k]).0 == path implies tree_entries(
        slots,
    )[k].1 == object by {
        assert(slots[k].0 == plan[k].0);
        assert(plan[k] == ready);
    }
}

/// The cache is trusted: a path that enters the commit with a digest in
/// the cache is never read, and the tree holds that digest for it. This
/// holds of the plan and of all that becomes of it.
pub proof fn lemma_cached_hash_is_reused(
    entries: Entries,
    included: Set<Seq<char>>,
    excluded: Set<Seq<char>>,
    slots: Slots,
    i: int,
    hash: ObjectHash,
)
    requires
        distinct_paths(entries),
        0 <= i < entries.len(),
        qualifies(entries[i].0, entries[i].1, included, excluded),
        entries[i].1.cached == Some(Cached::Hashed(hash)),
        follows(planned(entries, included, excluded), slots),
    ensures
        !cold_paths_of(planned(entries, included, excluded)).contains(entries[i].0),
        tree_entries(slots).contains((entries[i].0, Some(hash))),
        forall|k: int|
            0 <= k < slots.len() && (#[trigger] tree_entries(slots)[k]).0 == entries[i].0
                ==> tree_entries(slots)[k].1 == Some(hash),
{
    lemma_ready_slot_stays(entries, included, excluded, slots, i, Some(hash));
}

/// A deletion is passed on: a path that enters the commit as removed is
/// never read, and the tree holds it as a deletion and never with a
/// digest. This holds of the plan and of all that becomes of it.
pub proof fn lemma_removed_path_is_deleted(
    entries: Entries,
    included: Set<Seq<char>>,
    excluded: Set<Seq<char>>,
    slots: Slots,
    i: int,
)
    requires
        distinct_paths(entries),
        0 <= i < entries.len(),
        qualifies(entries[i].0, entries[i].1, included, excluded),
        entries[i].1.cached == Some(Cached::Removed),
        follows(planned(entries, included, excluded), slots),
    ensures
        !cold_paths_of(planned(entries, included, excluded)).contains(entries[i].0),
        tree_entries(slots).contains((entries[i].0, None::<ObjectHash>)),
        forall|k: int|
            0 <= k < slots.len() && (#[trigger] tree_entries(slots)[k]).0 == entries[i].0
                ==> tree_entries(slots)[k].1 is None,
{
    lemma_ready_slot_stays(entries, included, excluded, slots, i, None);
}

/// A path without a usable cache is read: where it enters the commit it
/// is among the paths to read, and once it is hashed the tree holds the
/// digest that was computed.
pub proof fn lemma_cold_path_is_read(
    entries: Entries,
    included: Set<Seq<char>>,
    excluded: Set<Seq<char>>,
    i: int,
    hash: ObjectHash,
)
    requires
        0 <= i < entries.len(),
        qualifies(entries[i].0, entries[i].1, included, excluded),
        resolution_of(entries[i].1.cached) is Cold,
    ensures
        cold_paths_of(planned(entries, included, excluded)).contains(entries[i].0),
        awaits(planned(entries, included, excluded), entries[i].0),
        tree_entries(filled(planned(entries, included, excluded), entries[i].0, hash)).contains(
            (entries[i].0, Some(hash)),
        ),
{
    let plan = planned(entries, included, excluded);
    let path = entries[i].0;
    let at = lemma_entry_has_slot(entries, included, excluded, i);
    assert(is_cold_at(plan, path, at));
    lemma_cold_paths(plan, path);
    lemma_first_cold(plan, path);
    let first = first_cold(plan, path);
    let after = filled(plan, path, hash);
    assert(tree_entries(after)[first] == (path, Some(hash)));
}

} // verus!
