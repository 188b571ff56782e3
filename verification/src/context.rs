//! The engine as a whole: a repository, the handles of its
//! collaborators, the write pipeline and the confirmations that wait for
//! the close.

use vstd::prelude::*;
use globset::GlobSet;
use crate::commit::{CommitJob, Timestamp, awaits, filled};
use crate::error::Error;
use crate::index::{Cached, Entries, Repository, cleaned, distinct_paths, lemma_cleaned, lookup};
use crate::object::{Hashed, ObjectHash};
use crate::pattern::picked_paths;
use crate::pipeline::{Offer, WritePipeline, WriteState};
use crate::selection::planned;
use crate::split::Splitter;
use crate::trace::TraceEvent;
use crate::tree::{Baseline, DeltaRequest, ops_of};

verus! {

/// How many finalized objects may wait to be written.
pub const BATCH_FUTURE_BUFFER_SIZE: usize = 64;

/// How many writes may run at a time.
pub const WRITE_FUTURE_BUFFER_SIZE: usize = 64;

/// How far the marshalling of a file has come.
#[derive(Debug, PartialEq, Eq)]
pub enum Marshalling {
    /// Every object is queued: the file is hashed, to this digest.
    Done(ObjectHash),
    /// The queue is full: these objects wait for room, oldest first.
    Suspended(Vec<Hashed>),
}

/// Paths with the digests under which their content was stored.
pub type Confirmations = Seq<(Seq<char>, ObjectHash)>;

/// What a context stands for.
pub struct ContextState<T, S> {
    pub repository: Repository,
    pub trace: T,
    pub store: S,
    /// The write pipeline.
    pub writes: WriteState,
    /// The confirmations that wait for the close, the oldest first.
    pub pending: Confirmations,
}

/// What a stored list of confirmations stands for.
pub open spec fn confirmations_of(raw: Seq<(String, ObjectHash)>) -> Confirmations {
    raw.map_values(|c: (String, ObjectHash)| (c.0@, c.1))
}

/// The tree entries that say of each path that it holds its digest.
pub open spec fn present(pairs: Confirmations) -> Seq<(Seq<char>, Option<ObjectHash>)> {
    pairs.map_values(|c: (Seq<char>, ObjectHash)| (c.0, Some(c.1)))
}

/// The entries of an index after each confirmation was applied to it,
/// the oldest first.
pub open spec fn confirmed(entries: Entries, pending: Confirmations) -> Entries {
    pending.fold_left(
        entries,
        |acc: Entries, c: (Seq<char>, ObjectHash)| cleaned(acc, c.0, c.1),
    )
}

/// How a close ends: well where every write has ended well, else in the
/// failure of the first write that failed, or in an error of its own
/// where writes are still due.
pub open spec fn close_result(writes: WriteState) -> Result<(), Error> {
    match writes.failure {
        Some(error) => Err(error),
        None => if writes.idle() {
            Ok(())
        } else {
            Err(Error::Absurd)
        },
    }
}

/// The engine: it owns the repository from its creation to its close.
#[derive(Debug)]
pub struct Context<T, S> {
    repository: Repository,
    trace: T,
    store: S,
    writes: WritePipeline,
    pending: Vec<(String, ObjectHash)>,
}

impl<T, S> View for Context<T, S> {
    type V = ContextState<T, S>;

    closed spec fn view(&self) -> ContextState<T, S> {
        ContextState {
            repository: self.repository,
            trace: self.trace,
            store: self.store,
            writes: self.writes@,
            pending: confirmations_of(self.pending@),
        }
    }
}

impl<T, S> Context<T, S> {
    /// A context on `repository`, with nothing queued and nothing to
    /// confirm.
    pub fn new(repository: Repository, trace: T, store: S) -> (r: Context<T, S>)
        ensures
            r@ == (ContextState {
                repository,
                trace,
                store,
                writes: WriteState::initial(
                    BATCH_FUTURE_BUFFER_SIZE as nat,
                    WRITE_FUTURE_BUFFER_SIZE as nat,
                ),
                pending: Confirmations::empty(),
            }),
    {
        let r = Context {
            repository,
            trace,
            store,
            writes: WritePipeline::new(BATCH_FUTURE_BUFFER_SIZE, WRITE_FUTURE_BUFFER_SIZE),
            pending: Vec::new(),
        };
        assert(confirmations_of(r.pending@) =~= Confirmations::empty());
        r
    }

    /// The repository that the context works on.
    pub fn repository(&self) -> (r: &Repository)
        ensures
            *r == self@.repository,
    {
        &self.repository
    }

    /// The repository, to change it while the context holds it.
    pub fn repository_mut(&mut self) -> (r: &mut Repository)
        ensures
            *r == old(self)@.repository,
            final(self)@ == (ContextState { repository: *final(r), ..old(self)@ }),
    {
        &mut self.repository
    }

    /// The handle of the observer.
    pub fn trace(&self) -> (r: &T)
        ensures
            *r == self@.trace,
    {
        &self.trace
    }

    /// The handle of the store.
    pub fn store(&self) -> (r: &S)
        ensures
            *r == self@.store,
    {
        &self.store
    }

    /// The write pipeline.
    pub fn writes(&self) -> (r: &WritePipeline)
        ensures
            r@ == self@.writes,
    {
        &self.writes
    }

    /// Begins the split of a file of `total_length` bytes.
    pub fn split_file(&self, total_length: u64) -> (r: (Splitter, TraceEvent))
        ensures
            r.0.offset() == 0,
            r.1 == (TraceEvent::SplitBegin { total: total_length }),
    {
        Splitter::begin(total_length)
    }

    /// Offers a finalized object to the write pipeline.
    pub fn enqueue(&mut self, object: Hashed) -> (r: Offer)
        ensures
            (final(self)@.writes, r) == old(self)@.writes.offer(object),
            final(self)@ == (ContextState { writes: final(self)@.writes, ..old(self)@ }),
    {
        self.writes.offer(object)
    }

    /// Takes in what the marshalling of a file has finalized: the
    /// objects, oldest first, and the digest of the file. The objects are
    /// queued as far as there is room. Where all of them are, the file is
    /// hashed; where some are not, they come back to wait for room. Where
    /// the writer has failed, so does this, with the writer's failure.
    pub fn hash_file(&mut self, objects: Vec<Hashed>, hash: ObjectHash) -> (r: Result<
        Marshalling,
        Error,
    >)
        ensures
            final(self)@ == (ContextState {
                writes: old(self)@.writes.offer_all(objects@),
                ..old(self)@
            }),
            final(self)@.writes.queue == old(self)@.writes.queue + objects@.take(
                old(self)@.writes.takes(objects@.len()),
            ),
            match r {
                Ok(Marshalling::Done(file)) => {
                    &&& old(self)@.writes.failure is None
                    &&& old(self)@.writes.takes(objects@.len()) == objects@.len()
                    &&& file == hash
                },
                Ok(Marshalling::Suspended(waiting)) => {
                    &&& old(self)@.writes.failure is None
                    &&& old(self)@.writes.takes(objects@.len()) < objects@.len()
                    &&& waiting@ == objects@.skip(old(self)@.writes.takes(objects@.len()))
                },
                Err(error) => old(self)@.writes.failure == Some(error),
            },
    {
        let failure = match self.writes.failure() {
            Some(error) => Some(error.clone()),
            None => None,
        };
        let waiting = self.writes.offer_all(objects);
        match failure {
            Some(error) => Err(error),
            None => if waiting.len() == 0 {
                Ok(Marshalling::Done(hash))
            } else {
                Ok(Marshalling::Suspended(waiting))
            },
        }
    }

    /// Hands out the next object to write, where a write may begin.
    pub fn start_write(&mut self) -> (r: Option<(TraceEvent, Hashed)>)
        ensures
            (final(self)@.writes, r) == old(self)@.writes.start(),
            final(self)@ == (ContextState { writes: final(self)@.writes, ..old(self)@ }),
    {
        self.writes.start()
    }

    /// Records how the write of the object under `hash` ended.
    pub fn finish_write(&mut self, hash: ObjectHash, result: Result<bool, Error>) -> (r: Result<
        TraceEvent,
        Error,
    >)
        ensures
            (final(self)@.writes, r) == old(self)@.writes.finish(hash, result),
            final(self)@ == (ContextState { writes: final(self)@.writes, ..old(self)@ }),
    {
        self.writes.finish(hash, result)
    }

    /// The tree to compute for a directory of its own: nothing as the
    /// baseline, and each given path with its digest.
    pub fn hash_subtree(&self, entries: Vec<(String, ObjectHash)>) -> (r: DeltaRequest)
        ensures
            r.baseline == Baseline::Empty,
            ops_of(r.entries@) == present(confirmations_of(entries@)),
    {
        let n = entries.len();
        let mut ops: Vec<(String, Option<ObjectHash>)> = Vec::new();
        let mut i: usize = 0;
        while i < n
            invariant
                n == entries@.len(),
                i <= n,
                ops@.len() == i,
                forall|k: int|
                    0 <= k < i ==> (#[trigger] ops@[k]).0@ == entries@[k].0@ && ops@[k].1 == Some(
                        entries@[k].1,
                    ),
            decreases n - i,
        {
            ops.push((entries[i].0.clone(), Some(entries[i].1)));
            i += 1;
        }
        assert(ops_of(ops@) =~= present(confirmations_of(entries@)));
        DeltaRequest { baseline: Baseline::Empty, entries: ops }
    }

    /// Begins a commit: selects the paths of the index and resolves each
    /// from its cached state. Nothing is read and nothing changes.
    pub fn hash_commit(
        &self,
        include_opt: Option<&GlobSet>,
        exclude_opt: Option<&GlobSet>,
        parents: Vec<ObjectHash>,
        message: String,
        timestamp: Timestamp,
    ) -> (job: CommitJob)
        ensures
            job.slots() == planned(
                self@.repository.index@,
                picked_paths(include_opt),
                picked_paths(exclude_opt),
            ),
            job.root() == self@.repository.head,
            job.parents() == parents,
            job.message() == message,
            job.timestamp() == timestamp,
    {
        CommitJob::plan(
            &self.repository.index,
            self.repository.head,
            include_opt,
            exclude_opt,
            parents,
            message,
            timestamp,
        )
    }

    /// Takes the outcome of reading and hashing the file at `path` into
    /// the commit. A digest fills the path's slot and is kept for the
    /// close, when the index learns of it. A failure ends the commit.
    pub fn file_hashed(
        &mut self,
        job: CommitJob,
        path: &str,
        result: Result<ObjectHash, Error>,
    ) -> (r: Result<CommitJob, Error>)
        ensures
            match result {
                Ok(hash) => if awaits(job.slots(), path@) {
                    &&& r matches Ok(next)
                    &&& next.slots() == filled(job.slots(), path@, hash)
                    &&& next.root() == job.root()
                    &&& next.parents() == job.parents()
                    &&& next.message() == job.message()
                    &&& next.timestamp() == job.timestamp()
                    &&& final(self)@ == (ContextState {
                        pending: old(self)@.pending.push((path@, hash)),
                        ..old(self)@
                    })
                } else {
                    r == Err::<CommitJob, Error>(Error::Absurd) && final(self)@ == old(self)@
                },
                Err(error) => r == Err::<CommitJob, Error>(error) && final(self)@ == old(self)@,
            },
    {
        match result {
            Ok(hash) => match job.accept(path, hash) {
                Ok(next) => {
                    let ghost before = self.pending@;
                    self.pending.push((path.to_owned(), hash));
                    assert(confirmations_of(self.pending@) =~= confirmations_of(before).push(
                        (path@, hash),
                    ));
                    Ok(next)
                },
                Err(_) => Err(Error::Absurd),
            },
            Err(error) => Err(error),
        }
    }

    /// Ends the session and gives the repository back. Where every write
    /// has ended well, each confirmation is applied to the index, the
    /// oldest first. Else the index stays as it was.
    pub fn close(self) -> (r: (Repository, Result<(), Error>))
        ensures
            r.1 == close_result(self@.writes),
            r.0.head == self@.repository.head,
            r.0.index@ == if r.1 is Ok {
                confirmed(self@.repository.index@, self@.pending)
            } else {
                self@.repository.index@
            },
    {
        let Context { repository, trace: _, store: _, writes, pending } = self;
        let idle = writes.is_idle();
        match writes.into_failure() {
            Some(error) => {
                return (repository, Err(error));
            },
            None => {},
        }
        if !idle {
            return (repository, Err(Error::Absurd));
        }
        let mut repository = repository;
        let n = pending.len();
        let mut i: usize = 0;
        assert(confirmations_of(pending@).take(0) =~= Confirmations::empty());
        while i < n
            invariant
                n == pending@.len(),
                i <= n,
                repository.head == self@.repository.head,
                repository.index@ == confirmed(
                    self@.repository.index@,
                    confirmations_of(pending@).take(i as int),
                ),
            decreases n - i,
        {
            proof {
                let all = confirmations_of(pending@);
                assert(all.take(i + 1) =~= all.take(i as int).push(all[i as int]));
                lemma_confirmed_push(self@.repository.index@, all.take(i as int), all[i as int]);
            }
            repository.index.clean(pending[i].0.clone(), pending[i].1);
            i += 1;
        }
        assert(confirmations_of(pending@).take(n as int) =~= confirmations_of(pending@));
        (repository, Ok(()))
    }
}

/// Whether the confirmation at `i` is the last one for its path.
pub open spec fn is_last_for_path(pending: Confirmations, i: int) -> bool {
    &&& 0 <= i < pending.len()
    &&& forall|j: int| i < j < pending.len() ==> (#[trigger] pending[j]).0 != pending[i].0
}

/// Whether some confirmation names `path`.
pub open spec fn names(pending: Confirmations, path: Seq<char>) -> bool {
    exists|i: int| 0 <= i < pending.len() && (#[trigger] pending[i]).0 == path
}

/// Applying one more confirmation is confirming its path after the
/// others were applied.
pub proof fn lemma_confirmed_push(
    entries: Entries,
    pending: Confirmations,
    last: (Seq<char>, ObjectHash),
)
    ensures
        confirmed(entries, pending.push(last)) == cleaned(
            confirmed(entries, pending),
            last.0,
            last.1,
        ),
{
    assert(pending.push(last).drop_last() =~= pending);
}

/// Confirmations leave the paths of an index distinct.
pub proof fn lemma_confirmed_distinct(entries: Entries, pending: Confirmations)
    requires
        distinct_paths(entries),
    ensures
        distinct_paths(confirmed(entries, pending)),
    decreases pending.len(),
{
    if pending.len() > 0 {
        let last = pending.last();
        lemma_confirmed_distinct(entries, pending.drop_last());
        lemma_cleaned(confirmed(entries, pending.drop_last()), last.0, last.1);
    }
}

/// After the confirmations were applied, the index holds for each path
/// that they name the digest of the last confirmation for that path.
pub proof fn lemma_confirmed_path(entries: Entries, pending: Confirmations, i: int)
    requires
        distinct_paths(entries),
        is_last_for_path(pending, i),
    ensures
        lookup(confirmed(entries, pending), pending[i].0) matches Some(entry) && entry.cached
            == Some(Cached::Hashed(pending[i].1)),
    decreases pending.len(),
{
    let last = pending.last();
    let earlier = pending.drop_last();
    lemma_confirmed_distinct(entries, earlier);
    lemma_cleaned(confirmed(entries, earlier), last.0, last.1);
    if i < pending.len() - 1 {
        assert(pending[pending.len() - 1].0 != pending[i].0);
        assert(is_last_for_path(earlier, i)) by {
            assert forall|j: int| i < j < earlier.len() implies (#[trigger] earlier[j]).0
                != earlier[i].0 by {
                assert(pending[j].0 != pending[i].0);
            }
        }
        lemma_confirmed_path(entries, earlier, i);
    }
}

/// A path that no confirmation names keeps its record.
pub proof fn lemma_unconfirmed_path(entries: Entries, pending: Confirmations, path: Seq<char>)
    requires
        distinct_paths(entries),
        !names(pending, path),
    ensures
        lookup(confirmed(entries, pending), path) == lookup(entries, path),
    decreases pending.len(),
{
    if pending.len() > 0 {
        let last = pending.last();
        let earlier = pending.drop_last();
        assert(pending[pending.len() - 1].0 != path);
        assert(!names(earlier, path)) by {
            assert forall|j: int| 0 <= j < earlier.len() implies (#[trigger] earlier[j]).0
                != path by {
                assert(pending[j].0 != path);
            }
        }
        lemma_confirmed_distinct(entries, earlier);
        lemma_cleaned(confirmed(entries, earlier), last.0, last.1);
        lemma_unconfirmed_path(entries, earlier, path);
    }
}

/// After a close that ended well, nothing waited to be written, no write
/// was running and none had failed; and the index holds, for each path
/// that was confirmed, the digest of the last confirmation for it.
pub proof fn lemma_close_is_consistent<T, S>(state: ContextState<T, S>, i: int)
    requires
        distinct_paths(state.repository.index@),
        close_result(state.writes) is Ok,
        is_last_for_path(state.pending, i),
    ensures
        state.writes.idle(),
        state.writes.failure is None,
        lookup(
            confirmed(state.repository.index@, state.pending),
            state.pending[i].0,
        ) matches Some(entry) && entry.cached == Some(Cached::Hashed(state.pending[i].1)),
{
    lemma_confirmed_path(state.repository.index@, state.pending, i);
}

} // verus!
