//! The path from finalized objects to the store: a bounded queue, and a
//! bounded number of writes that run at a time.
//!
//! The pipeline holds no thread and makes no call. Producers offer
//! objects, the writer asks for the next object to write and reports how
//! each write ended.

use vstd::prelude::*;
use vstd::multiset::Multiset;
use crate::error::Error;
use crate::object::{Hashed, ObjectHash};
use crate::trace::TraceEvent;

verus! {

/// The answer to a producer that offers an object.
#[derive(Debug, PartialEq, Eq)]
pub enum Offer {
    /// The object is queued.
    Accepted,
    /// The queue is full: the producer keeps the object and waits.
    Full(Hashed),
    /// The writer has failed and takes no more: the producer keeps the
    /// object.
    Closed(Hashed),
}

/// What happens to a pipeline.
pub enum WriteEvent {
    /// A producer offered the object.
    Offered(Hashed),
    /// The writer asked for the next object to write.
    Started,
    /// The writer reported how the write of the object under the digest
    /// ended.
    Finished(ObjectHash, Result<bool, Error>),
}

/// What a pipeline stands for.
pub struct WriteState {
    /// How many finalized objects may wait at a time.
    pub capacity: nat,
    /// How many writes may run at a time.
    pub concurrency: nat,
    /// The objects that wait to be written, oldest first.
    pub queue: Seq<Hashed>,
    /// The digests of the objects whose writes are running.
    pub in_flight: Multiset<ObjectHash>,
    /// The failure of the first write that failed.
    pub failure: Option<Error>,
}

/// The digests of a list of objects, without their order.
pub open spec fn digests(objects: Seq<Hashed>) -> Multiset<ObjectHash> {
    objects.map_values(|object: Hashed| object.spec_hash()).to_multiset()
}

impl WriteState {
    /// A pipeline in which nothing waits and nothing runs.
    pub open spec fn initial(capacity: nat, concurrency: nat) -> WriteState {
        WriteState {
            capacity,
            concurrency,
            queue: Seq::empty(),
            in_flight: Multiset::empty(),
            failure: None,
        }
    }

    /// Neither bound is exceeded.
    pub open spec fn within_bounds(self) -> bool {
        self.queue.len() <= self.capacity && self.in_flight.len() <= self.concurrency
    }

    /// Nothing waits and nothing runs.
    pub open spec fn idle(self) -> bool {
        self.queue.len() == 0 && self.in_flight.len() == 0
    }

    /// How many more objects the queue takes.
    pub open spec fn room(self) -> int {
        self.capacity - self.queue.len()
    }

    /// How many of `count` objects that are offered one after the other
    /// the queue takes, while no write begins.
    pub open spec fn takes(self, count: nat) -> int {
        if self.failure is Some || self.room() <= 0 {
            0
        } else if count <= self.room() {
            count as int
        } else {
            self.room()
        }
    }

    /// A producer offers `object`.
    pub open spec fn offer(self, object: Hashed) -> (WriteState, Offer) {
        if self.failure is Some {
            (self, Offer::Closed(object))
        } else if self.queue.len() >= self.capacity {
            (self, Offer::Full(object))
        } else {
            (WriteState { queue: self.queue.push(object), ..self }, Offer::Accepted)
        }
    }

    /// Whether the writer may begin a write.
    pub open spec fn can_start(self) -> bool {
        self.failure is None && self.in_flight.len() < self.concurrency && self.queue.len() > 0
    }

    /// The writer asks for the next object to write.
    pub open spec fn start(self) -> (WriteState, Option<(TraceEvent, Hashed)>) {
        if self.can_start() {
            let object = self.queue.first();
            let hash = object.spec_hash();
            (
                WriteState {
                    queue: self.queue.drop_first(),
                    in_flight: self.in_flight.insert(hash),
                    ..self
                },
                Some((TraceEvent::WriteObjectStart { hash }, object)),
            )
        } else {
            (self, None)
        }
    }

    /// The writer reports how the write of the object under `hash` ended.
    pub open spec fn finish(self, hash: ObjectHash, result: Result<bool, Error>) -> (
        WriteState,
        Result<TraceEvent, Error>,
    ) {
        if !self.in_flight.contains(hash) {
            (self, Err(Error::Absurd))
        } else {
            let in_flight = self.in_flight.remove(hash);
            match result {
                Ok(fresh) => (
                    WriteState { in_flight, ..self },
                    Ok(TraceEvent::WriteObjectFinish { hash, fresh }),
                ),
                Err(error) => (
                    WriteState {
                        in_flight,
                        failure: if self.failure is Some {
                            self.failure
                        } else {
                            Some(error)
                        },
                        ..self
                    },
                    Err(error),
                ),
            }
        }
    }

    /// The digests of the objects that the pipeline holds: those that
    /// wait and those whose writes run.
    pub open spec fn held(self) -> Multiset<ObjectHash> {
        digests(self.queue).add(self.in_flight)
    }

    /// The state after `event`.
    pub open spec fn step(self, event: WriteEvent) -> WriteState {
        match event {
            WriteEvent::Offered(object) => self.offer(object).0,
            WriteEvent::Started => self.start().0,
            WriteEvent::Finished(hash, result) => self.finish(hash, result).0,
        }
    }

    /// The state after the events, the oldest first.
    pub open spec fn run(self, events: Seq<WriteEvent>) -> WriteState
        decreases events.len(),
    {
        if events.len() == 0 {
            self
        } else {
            self.run(events.drop_last()).step(events.last())
        }
    }

    /// The digests of the objects that were taken into the queue in the
    /// course of the events.
    pub open spec fn taken(self, events: Seq<WriteEvent>) -> Multiset<ObjectHash>
        decreases events.len(),
    {
        if events.len() == 0 {
            Multiset::empty()
        } else {
            let before = self.run(events.drop_last());
            let earlier = self.taken(events.drop_last());
            match events.last() {
                WriteEvent::Offered(object) => if before.offer(object).1 is Accepted {
                    earlier.insert(object.spec_hash())
                } else {
                    earlier
                },
                _ => earlier,
            }
        }
    }

    /// The digests of the objects whose writes ended well in the course
    /// of the events.
    pub open spec fn written(self, events: Seq<WriteEvent>) -> Multiset<ObjectHash>
        decreases events.len(),
    {
        if events.len() == 0 {
            Multiset::empty()
        } else {
            let before = self.run(events.drop_last());
            let earlier = self.written(events.drop_last());
            match events.last() {
                WriteEvent::Finished(hash, Ok(_)) => if before.in_flight.contains(hash) {
                    earlier.insert(hash)
                } else {
                    earlier
                },
                _ => earlier,
            }
        }
    }

    /// The state after the objects were offered one after the other,
    /// whatever the answers were.
    pub open spec fn offer_all(self, objects: Seq<Hashed>) -> WriteState
        decreases objects.len(),
    {
        if objects.len() == 0 {
            self
        } else {
            self.offer_all(objects.drop_last()).offer(objects.last()).0
        }
    }
}

/// The digests of a list of running writes, without their order.
pub open spec fn running(in_flight: Seq<ObjectHash>) -> Multiset<ObjectHash> {
    in_flight.to_multiset()
}

/// The queue of finalized objects and the writes that run.
#[derive(Debug)]
pub struct WritePipeline {
    capacity: usize,
    concurrency: usize,
    queue: Vec<Hashed>,
    in_flight: Vec<ObjectHash>,
    failure: Option<Error>,
}

impl View for WritePipeline {
    type V = WriteState;

    closed spec fn view(&self) -> WriteState {
        WriteState {
            capacity: self.capacity as nat,
            concurrency: self.concurrency as nat,
            queue: self.queue@,
            in_flight: running(self.in_flight@),
            failure: self.failure,
        }
    }
}

/// The first place at which `hash` stands in `list`.
fn first_place(list: &Vec<ObjectHash>, hash: ObjectHash) -> (r: Option<usize>)
    ensures
        match r {
            Some(i) => i < list@.len() && list@[i as int] == hash,
            None => !list@.contains(hash),
        },
{
    let n = list.len();
    let mut i: usize = 0;
    while i < n
        invariant
            n == list@.len(),
            i <= n,
            forall|k: int| 0 <= k < i ==> list@[k] != hash,
        decreases n - i,
    {
        if list[i] == hash {
            return Some(i);
        }
        i += 1;
    }
    None
}

impl WritePipeline {
    /// A pipeline in which at most `capacity` objects wait and at most
    /// `concurrency` writes run.
    pub fn new(capacity: usize, concurrency: usize) -> (r: WritePipeline)
        ensures
            r@ == WriteState::initial(capacity as nat, concurrency as nat),
    {
        let r = WritePipeline {
            capacity,
            concurrency,
            queue: Vec::new(),
            in_flight: Vec::new(),
            failure: None,
        };
        proof {
            broadcast use vstd::seq_lib::group_to_multiset_ensures;

            assert(r.in_flight@ =~= Seq::empty());
            assert(running(r.in_flight@) =~= Multiset::empty());
            assert(r.queue@ =~= Seq::empty());
        }
        r
    }

    /// How many finalized objects may wait at a time.
    pub fn capacity(&self) -> (r: usize)
        ensures
            r == self@.capacity,
    {
        self.capacity
    }

    /// How many writes may run at a time.
    pub fn concurrency(&self) -> (r: usize)
        ensures
            r == self@.concurrency,
    {
        self.concurrency
    }

    /// How many objects wait.
    pub fn queued(&self) -> (r: usize)
        ensures
            r == self@.queue.len(),
    {
        self.queue.len()
    }

    /// How many writes run.
    pub fn writing(&self) -> (r: usize)
        ensures
            r == self@.in_flight.len(),
    {
        proof {
            broadcast use vstd::seq_lib::group_to_multiset_ensures;

        }
        self.in_flight.len()
    }

    /// Whether a write has failed.
    pub fn has_failed(&self) -> (r: bool)
        ensures
            r == (self@.failure is Some),
    {
        self.failure.is_some()
    }

    /// Whether nothing waits and nothing runs.
    pub fn is_idle(&self) -> (r: bool)
        ensures
            r == self@.idle(),
    {
        proof {
            broadcast use vstd::seq_lib::group_to_multiset_ensures;

        }
        self.queue.len() == 0 && self.in_flight.len() == 0
    }

    /// Takes `object` into the queue where there is room. Where there is
    /// none, or the writer has failed, the object comes back.
    pub fn offer(&mut self, object: Hashed) -> (r: Offer)
        ensures
            (final(self)@, r) == old(self)@.offer(object),
    {
        if self.failure.is_some() {
            Offer::Closed(object)
        } else if self.queue.len() >= self.capacity {
            Offer::Full(object)
        } else {
            self.queue.push(object);
            Offer::Accepted
        }
    }

    /// Takes as many of `objects` into the queue as there is room for,
    /// the first ones first, and hands the others back in their order.
    pub fn offer_all(&mut self, objects: Vec<Hashed>) -> (rest: Vec<Hashed>)
        ensures
            final(self)@ == old(self)@.offer_all(objects@),
            final(self)@.queue == old(self)@.queue + objects@.take(
                old(self)@.takes(objects@.len()),
            ),
            rest@ == objects@.skip(old(self)@.takes(objects@.len())),
    {
        proof {
            lemma_offer_all(self@, objects@);
        }
        let room = if self.failure.is_some() || self.queue.len() >= self.capacity {
            0
        } else {
            self.capacity - self.queue.len()
        };
        let count = if objects.len() <= room {
            objects.len()
        } else {
            room
        };
        let mut taken = objects;
        let rest = taken.split_off(count);
        proof {
            assert(taken@ =~= objects@.take(count as int));
            assert(rest@ =~= objects@.skip(count as int));
        }
        self.queue.append(&mut taken);
        rest
    }

    /// Hands out the oldest waiting object for writing, with the
    /// notification that is due, where a write may begin.
    pub fn start(&mut self) -> (r: Option<(TraceEvent, Hashed)>)
        ensures
            (final(self)@, r) == old(self)@.start(),
    {
        proof {
            broadcast use vstd::seq_lib::group_to_multiset_ensures;

        }
        if self.failure.is_some() || self.in_flight.len() >= self.concurrency
            || self.queue.len() == 0 {
            return None;
        }
        let object = self.queue.remove(0);
        let hash = *object.as_hash();
        self.in_flight.push(hash);
        proof {
            assert(self.queue@ =~= old(self).queue@.drop_first());
            assert(running(self.in_flight@) =~= running(old(self).in_flight@).insert(hash));
        }
        Some((TraceEvent::WriteObjectStart { hash }, object))
    }

    /// Records how the write of the object under `hash` ended, and
    /// yields the notification that is due or the failure. The first
    /// failure stays. A digest under which no write runs is refused.
    pub fn finish(&mut self, hash: ObjectHash, result: Result<bool, Error>) -> (r: Result<
        TraceEvent,
        Error,
    >)
        ensures
            (final(self)@, r) == old(self)@.finish(hash, result),
    {
        proof {
            broadcast use vstd::seq_lib::group_to_multiset_ensures;

        }
        let i = match first_place(&self.in_flight, hash) {
            Some(i) => i,
            None => {
                return Err(Error::Absurd);
            },
        };
        proof {
            vstd::seq_lib::to_multiset_remove(self.in_flight@, i as int);
        }
        self.in_flight.remove(i);
        match result {
            Ok(fresh) => Ok(TraceEvent::WriteObjectFinish { hash, fresh }),
            Err(error) => {
                if self.failure.is_none() {
                    self.failure = Some(error.clone());
                }
                Err(error)
            },
        }
    }

    /// The failure of the first write that failed, if any did.
    pub fn failure(&self) -> (r: Option<&Error>)
        ensures
            match r {
                Some(error) => self@.failure == Some(*error),
                None => self@.failure is None,
            },
    {
        self.failure.as_ref()
    }

    /// The pipeline's last word: the failure of the first write that
    /// failed, if any did.
    pub fn into_failure(self) -> (r: Option<Error>)
        ensures
            r == self@.failure,
    {
        self.failure
    }
}

/// The digests of a queue that took one more object.
proof fn lemma_digests_push(queue: Seq<Hashed>, object: Hashed)
    ensures
        digests(queue.push(object)) == digests(queue).insert(object.spec_hash()),
{
    let hashes = queue.map_values(|object: Hashed| object.spec_hash());
    assert(queue.push(object).map_values(|object: Hashed| object.spec_hash()) =~= hashes.push(
        object.spec_hash(),
    ));
    vstd::seq_lib::to_multiset_build(hashes, object.spec_hash());
}

/// The digests of a queue that gave its oldest object away.
proof fn lemma_digests_drop_first(queue: Seq<Hashed>)
    requires
        queue.len() > 0,
    ensures
        digests(queue.drop_first()) == digests(queue).remove(queue.first().spec_hash()),
        digests(queue).contains(queue.first().spec_hash()),
{
    let hashes = queue.map_values(|object: Hashed| object.spec_hash());
    assert(queue.drop_first().map_values(|object: Hashed| object.spec_hash()) =~= hashes.remove(
        0,
    ));
    vstd::seq_lib::to_multiset_remove(hashes, 0);
    vstd::seq_lib::to_multiset_contains(hashes, hashes[0]);
    assert(hashes.contains(hashes[0]));
}

/// Neither bound is ever exceeded: whatever happens to a pipeline that
/// is within its bounds leaves it within them.
pub proof fn lemma_bounds_are_kept(state: WriteState, event: WriteEvent)
    requires
        state.within_bounds(),
    ensures
        state.step(event).within_bounds(),
{
    broadcast use vstd::multiset::group_multiset_axioms;

}

/// Neither bound is exceeded in the course of any events, from a state
/// that is within its bounds.
pub proof fn lemma_run_within_bounds(state: WriteState, events: Seq<WriteEvent>)
    requires
        state.within_bounds(),
    ensures
        state.run(events).within_bounds(),
    decreases events.len(),
{
    if events.len() > 0 {
        lemma_run_within_bounds(state, events.drop_last());
        lemma_bounds_are_kept(state.run(events.drop_last()), events.last());
    }
}

/// A failed writer stays failed, with the failure of the first write
/// that failed. It begins no further write and takes no further object.
pub proof fn lemma_failure_is_final(state: WriteState, event: WriteEvent)
    requires
        state.failure is Some,
    ensures
        state.step(event).failure == state.failure,
        state.start() == (state, None::<(TraceEvent, Hashed)>),
        forall|object: Hashed| #[trigger] state.offer(object) == (state, Offer::Closed(object)),
{
}

/// No object is lost. An object that is offered is either held from
/// then on or handed back; a write that begins moves nothing out; and an
/// object leaves only when the end of its write is reported.
pub proof fn lemma_nothing_is_lost(state: WriteState, event: WriteEvent)
    ensures
        match event {
            WriteEvent::Offered(object) => match state.offer(object).1 {
                Offer::Accepted => state.step(event).held() == state.held().insert(
                    object.spec_hash(),
                ),
                Offer::Full(back) => back == object && state.step(event) == state,
                Offer::Closed(back) => back == object && state.step(event) == state,
            },
            WriteEvent::Started => state.step(event).held() == state.held(),
            WriteEvent::Finished(hash, _) => if state.in_flight.contains(hash) {
                state.step(event).held() == state.held().remove(hash)
            } else {
                state.step(event) == state
            },
        },
{
    broadcast use vstd::multiset::group_multiset_axioms;

    match event {
        WriteEvent::Offered(object) => {
            if state.offer(object).1 is Accepted {
                lemma_digests_push(state.queue, object);
                assert(state.step(event).held() =~= state.held().insert(object.spec_hash()));
            }
        },
        WriteEvent::Started => {
            if state.can_start() {
                lemma_digests_drop_first(state.queue);
                assert(state.step(event).held() =~= state.held());
            }
        },
        WriteEvent::Finished(hash, result) => {
            if state.in_flight.contains(hash) {
                assert(state.step(event).held() =~= state.held().remove(hash));
            }
        },
    }
}

/// What is offered one after the other is queued in the order of the
/// offers as far as there is room, and nothing else changes.
pub proof fn lemma_offer_all(state: WriteState, objects: Seq<Hashed>)
    ensures
        state.offer_all(objects) == (WriteState {
            queue: state.queue + objects.take(state.takes(objects.len())),
            ..state
        }),
    decreases objects.len(),
{
    if objects.len() == 0 {
        assert(state.queue + objects.take(0) =~= state.queue);
    } else {
        let earlier = objects.drop_last();
        lemma_offer_all(state, earlier);
        let before = state.offer_all(earlier);
        let taken = state.takes(objects.len());
        if taken == objects.len() {
            assert(earlier.take(earlier.len() as int) =~= earlier);
            assert(before.queue.push(objects.last()) =~= state.queue + objects.take(taken));
        } else {
            assert(earlier.take(state.takes(earlier.len())) =~= objects.take(taken));
        }
    }
}

/// Backpressure: while no write begins, a producer that offers more
/// objects than the queue has room for is told to wait from the first
/// object that finds no room. That object and each one after it comes
/// back to the producer, and the queue holds all that came before.
pub proof fn lemma_backpressure(state: WriteState, objects: Seq<Hashed>, i: int)
    requires
        state.within_bounds(),
        state.failure is None,
        0 <= i < objects.len(),
    ensures
        i < state.room() ==> state.offer_all(objects.take(i)).offer(objects[i]) == (
            WriteState { queue: state.queue + objects.take(i + 1), ..state },
            Offer::Accepted,
        ),
        i >= state.room() ==> state.offer_all(objects.take(i)).offer(objects[i]) == (
            WriteState { queue: state.queue + objects.take(state.room()), ..state },
            Offer::Full(objects[i]),
        ),
{
    let earlier = objects.take(i);
    lemma_offer_all(state, earlier);
    if i < state.room() {
        assert(earlier.take(i) =~= earlier);
        assert((state.queue + earlier).push(objects[i]) =~= state.queue + objects.take(i + 1));
    } else {
        assert(earlier.take(state.room()) =~= objects.take(state.room()));
    }
}

/// As long as no write has failed, the objects that a pipeline held at
/// first and those that it took since are those that it holds now and
/// those whose writes ended well.
pub proof fn lemma_run_accounts(state: WriteState, events: Seq<WriteEvent>)
    requires
        state.run(events).failure is None,
    ensures
        state.held().add(state.taken(events)) == state.run(events).held().add(
            state.written(events),
        ),
    decreases events.len(),
{
    broadcast use vstd::multiset::group_multiset_axioms;

    if events.len() == 0 {
        assert(state.held().add(state.taken(events)) =~= state.run(events).held().add(
            state.written(events),
        ));
    } else {
        let earlier = events.drop_last();
        let before = state.run(earlier);
        let event = events.last();
        if before.failure is Some {
            lemma_failure_is_final(before, event);
        }
        lemma_run_accounts(state, earlier);
        lemma_nothing_is_lost(before, event);
        let after = state.run(events);
        assert(after == before.step(event));
        match event {
            WriteEvent::Offered(object) => {
                if before.offer(object).1 is Accepted {
                    assert(state.taken(events) == state.taken(earlier).insert(object.spec_hash()));
                } else {
                    assert(state.taken(events) == state.taken(earlier));
                }
                assert(state.written(events) == state.written(earlier));
            },
            WriteEvent::Started => {
                assert(state.taken(events) == state.taken(earlier));
                assert(state.written(events) == state.written(earlier));
            },
            WriteEvent::Finished(hash, result) => {
                assert(state.taken(events) == state.taken(earlier));
                if before.in_flight.contains(hash) {
                    assert(result is Ok);
                    assert(state.written(events) == state.written(earlier).insert(hash));
                    assert(before.held().count(hash) > 0);
                } else {
                    assert(state.written(events) == state.written(earlier));
                }
            },
        }
        let held = state.held();
        let sum = held.add(state.taken(earlier));
        assert(sum == before.held().add(state.written(earlier)));
        assert forall|hash: ObjectHash|
            held.add(state.taken(events)).count(hash) == after.held().add(
                state.written(events),
            ).count(hash) by {
            assert(sum.count(hash) == held.count(hash) + state.taken(earlier).count(hash));
            assert(sum.count(hash) == before.held().count(hash) + state.written(earlier).count(
                hash,
            ));
        }
        assert(held.add(state.taken(events)) =~= after.held().add(state.written(events)));
    }
}

/// Every object that a pipeline took has been written without a
/// failure, once the pipeline that began with nothing is left with
/// nothing to do and no write has failed.
pub proof fn lemma_all_taken_are_written(state: WriteState, events: Seq<WriteEvent>)
    requires
        state.idle(),
        state.run(events).idle(),
        state.run(events).failure is None,
    ensures
        state.taken(events) == state.written(events),
{
    broadcast use vstd::multiset::group_multiset_axioms;
    broadcast use vstd::seq_lib::group_to_multiset_ensures;

    lemma_run_accounts(state, events);
    let end = state.run(events);
    assert(digests(state.queue) =~= Multiset::empty()) by {
        assert(state.queue.map_values(|object: Hashed| object.spec_hash()) =~= Seq::empty());
    }
    assert(digests(end.queue) =~= Multiset::empty()) by {
        assert(end.queue.map_values(|object: Hashed| object.spec_hash()) =~= Seq::empty());
    }
    assert(state.in_flight =~= Multiset::empty());
    assert(end.in_flight =~= Multiset::empty());
    assert(state.taken(events) =~= state.held().add(state.taken(events)));
    assert(state.written(events) =~= end.held().add(state.written(events)));
}

} // verus!
