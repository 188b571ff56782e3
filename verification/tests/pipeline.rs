use marshal_engine::context::{
    Context, Marshalling, BATCH_FUTURE_BUFFER_SIZE, WRITE_FUTURE_BUFFER_SIZE,
};
use marshal_engine::error::Error;
use marshal_engine::index::{Cached, Index, IndexEntry, Repository};
use marshal_engine::object::{Hashed, ObjectHash};
use marshal_engine::pipeline::{Offer, WritePipeline};
use marshal_engine::split::Splitter;
use marshal_engine::trace::TraceEvent;

fn hash_of(seed: u8) -> ObjectHash {
    ObjectHash { bytes: [seed; 32] }
}

fn object(seed: u8) -> Hashed {
    Hashed::new(hash_of(seed), vec![seed, seed, seed])
}

#[test]
fn a_full_queue_hands_the_object_back() {
    let mut pipeline = WritePipeline::new(2, 1);
    assert_eq!(pipeline.offer(object(1)), Offer::Accepted);
    assert_eq!(pipeline.offer(object(2)), Offer::Accepted);
    assert_eq!(pipeline.offer(object(3)), Offer::Full(object(3)));
    assert_eq!(pipeline.offer(object(4)), Offer::Full(object(4)));
    assert_eq!(pipeline.queued(), 2);

    assert_eq!(
        pipeline.start(),
        Some((TraceEvent::WriteObjectStart { hash: hash_of(1) }, object(1)))
    );
    assert_eq!(pipeline.queued(), 1);
    assert_eq!(pipeline.offer(object(3)), Offer::Accepted);
    assert_eq!(pipeline.offer(object(4)), Offer::Full(object(4)));
    assert_eq!(pipeline.queued(), 2);
    assert_eq!(pipeline.writing(), 1);
}

#[test]
fn more_objects_than_the_queue_holds_make_the_producer_wait() {
    let mut ctx: Context<(), ()> = Context::new(Repository::new(Index::new(), None), (), ());
    assert_eq!(ctx.writes().capacity(), BATCH_FUTURE_BUFFER_SIZE);
    assert_eq!(ctx.writes().concurrency(), WRITE_FUTURE_BUFFER_SIZE);
    let count = BATCH_FUTURE_BUFFER_SIZE as u8 + 5;
    let mut waiting = Vec::new();
    for seed in 0..count {
        match ctx.enqueue(object(seed)) {
            Offer::Accepted => {}
            Offer::Full(back) => waiting.push(back),
            Offer::Closed(_) => panic!("the writer has not failed"),
        }
    }
    assert_eq!(ctx.writes().queued(), BATCH_FUTURE_BUFFER_SIZE);
    let first = BATCH_FUTURE_BUFFER_SIZE as u8;
    assert_eq!(
        waiting,
        vec![
            object(first),
            object(first + 1),
            object(first + 2),
            object(first + 3),
            object(first + 4)
        ]
    );

    let mut written = Vec::new();
    loop {
        let mut begun = Vec::new();
        while let Some((event, next)) = ctx.start_write() {
            assert_eq!(event, TraceEvent::WriteObjectStart { hash: *next.as_hash() });
            begun.push(*next.as_hash());
        }
        if begun.is_empty() {
            break;
        }
        for hash in begun {
            assert_eq!(
                ctx.finish_write(hash, Ok(true)),
                Ok(TraceEvent::WriteObjectFinish { hash, fresh: true })
            );
            written.push(hash.bytes[0]);
        }
        waiting = match ctx.hash_file(waiting, hash_of(0)) {
            Ok(Marshalling::Done(_)) => Vec::new(),
            Ok(Marshalling::Suspended(again)) => again,
            Err(error) => panic!("the writer has not failed: {:?}", error),
        };
    }
    assert!(waiting.is_empty());
    assert!(ctx.writes().is_idle());
    written.sort();
    assert_eq!(written, (0..count).collect::<Vec<u8>>());
    let (_, result) = ctx.close();
    assert_eq!(result, Ok(()));
}

#[test]
fn no_more_writes_run_than_the_bound_allows() {
    let mut pipeline = WritePipeline::new(8, 2);
    for seed in 1..=4 {
        assert_eq!(pipeline.offer(object(seed)), Offer::Accepted);
    }
    assert!(pipeline.start().is_some());
    assert!(pipeline.start().is_some());
    assert_eq!(pipeline.start(), None);
    assert_eq!(pipeline.writing(), 2);
    assert_eq!(pipeline.queued(), 2);

    assert_eq!(
        pipeline.finish(hash_of(2), Ok(false)),
        Ok(TraceEvent::WriteObjectFinish { hash: hash_of(2), fresh: false })
    );
    assert_eq!(pipeline.writing(), 1);
    assert_eq!(
        pipeline.start(),
        Some((TraceEvent::WriteObjectStart { hash: hash_of(3) }, object(3)))
    );
    assert_eq!(pipeline.start(), None);
}

#[test]
fn objects_are_written_oldest_first() {
    let mut pipeline = WritePipeline::new(4, 4);
    for seed in [7u8, 3, 9] {
        assert_eq!(pipeline.offer(object(seed)), Offer::Accepted);
    }
    let mut order = Vec::new();
    while let Some((_, next)) = pipeline.start() {
        order.push(next.as_hash().bytes[0]);
    }
    assert_eq!(order, vec![7, 3, 9]);
}

#[test]
fn the_same_object_may_be_written_twice_at_a_time() {
    let mut pipeline = WritePipeline::new(4, 4);
    assert_eq!(pipeline.offer(object(5)), Offer::Accepted);
    assert_eq!(pipeline.offer(object(5)), Offer::Accepted);
    assert!(pipeline.start().is_some());
    assert!(pipeline.start().is_some());
    assert_eq!(pipeline.writing(), 2);
    assert!(pipeline.finish(hash_of(5), Ok(true)).is_ok());
    assert_eq!(pipeline.writing(), 1);
    assert!(pipeline.finish(hash_of(5), Ok(false)).is_ok());
    assert_eq!(pipeline.finish(hash_of(5), Ok(false)), Err(Error::Absurd));
    assert!(pipeline.is_idle());
    assert!(!pipeline.has_failed());
}

#[test]
fn a_write_that_was_never_begun_cannot_end() {
    let mut pipeline = WritePipeline::new(4, 4);
    assert_eq!(pipeline.offer(object(1)), Offer::Accepted);
    assert_eq!(pipeline.finish(hash_of(1), Ok(true)), Err(Error::Absurd));
    assert_eq!(pipeline.queued(), 1);
    assert!(!pipeline.has_failed());
    assert_eq!(pipeline.into_failure(), None);
}

#[test]
fn a_failed_write_stops_the_writer() {
    let mut pipeline = WritePipeline::new(4, 2);
    for seed in 1..=3 {
        assert_eq!(pipeline.offer(object(seed)), Offer::Accepted);
    }
    assert!(pipeline.start().is_some());
    assert!(pipeline.start().is_some());
    let disk_full = Error::Msg("disk full".to_string());
    assert_eq!(pipeline.finish(hash_of(1), Err(disk_full.clone())), Err(disk_full.clone()));
    assert!(pipeline.has_failed());
    assert_eq!(pipeline.start(), None);
    assert_eq!(pipeline.offer(object(4)), Offer::Closed(object(4)));
    assert_eq!(pipeline.queued(), 1);

    let later = Error::Msg("later".to_string());
    assert_eq!(pipeline.finish(hash_of(2), Err(later.clone())), Err(later));
    assert_eq!(pipeline.start(), None);
    assert_eq!(pipeline.into_failure(), Some(disk_full));
}

#[test]
fn a_pipeline_without_room_takes_nothing() {
    let mut pipeline = WritePipeline::new(0, 1);
    assert_eq!(pipeline.offer(object(1)), Offer::Full(object(1)));
    assert_eq!(pipeline.start(), None);
    assert!(pipeline.is_idle());
}

#[test]
fn a_close_surfaces_the_failure_and_leaves_the_index() {
    let mut index = Index::new();
    let unknown = IndexEntry { is_tracked: true, is_added: false, cached: None };
    index.insert("a".to_string(), unknown);
    let mut ctx: Context<(), ()> = Context::new(Repository::new(index, None), (), ());
    let job = ctx.hash_commit(None, None, vec![], String::new(), marshal_engine::commit::Timestamp {
        seconds: 0,
        nanos: 0,
    });
    assert_eq!(ctx.enqueue(object(1)), Offer::Accepted);
    let job = ctx.file_hashed(job, "a", Ok(hash_of(1))).unwrap();
    assert!(job.is_resolved());
    assert!(ctx.start_write().is_some());
    let refused = Error::Msg("store refused the object".to_string());
    assert_eq!(ctx.finish_write(hash_of(1), Err(refused.clone())), Err(refused.clone()));
    let (repository, result) = ctx.close();
    assert_eq!(result, Err(refused));
    assert_eq!(repository.index.get("a"), Some(unknown));
}

#[test]
fn a_close_before_the_writes_have_ended_is_refused() {
    let mut index = Index::new();
    let unknown = IndexEntry { is_tracked: true, is_added: false, cached: None };
    index.insert("a".to_string(), unknown);

    let mut ctx: Context<(), ()> = Context::new(Repository::new(index.clone(), None), (), ());
    assert_eq!(ctx.enqueue(object(1)), Offer::Accepted);
    let (repository, result) = ctx.close();
    assert_eq!(result, Err(Error::Absurd));
    assert_eq!(repository.index, index);

    let mut ctx: Context<(), ()> = Context::new(Repository::new(index.clone(), None), (), ());
    assert_eq!(ctx.enqueue(object(1)), Offer::Accepted);
    assert!(ctx.start_write().is_some());
    let (repository, result) = ctx.close();
    assert_eq!(result, Err(Error::Absurd));
    assert_eq!(repository.index, index);
}

#[test]
fn after_a_close_every_confirmation_is_in_the_index() {
    let mut index = Index::new();
    for path in ["a", "b", "c"] {
        index.insert(
            path.to_string(),
            IndexEntry { is_tracked: true, is_added: false, cached: Some(Cached::Unhashed) },
        );
    }
    let head = Some(hash_of(200));
    let mut ctx: Context<(), ()> = Context::new(Repository::new(index, head), (), ());
    let mut job =
        ctx.hash_commit(None, None, vec![], String::new(), marshal_engine::commit::Timestamp {
            seconds: 0,
            nanos: 0,
        });
    for (path, seed) in [("b", 2u8), ("c", 3), ("a", 1)] {
        assert_eq!(ctx.enqueue(object(seed)), Offer::Accepted);
        job = ctx.file_hashed(job, path, Ok(hash_of(seed))).unwrap();
    }
    while let Some((_, next)) = ctx.start_write() {
        assert!(ctx.finish_write(*next.as_hash(), Ok(true)).is_ok());
    }
    let (repository, result) = ctx.close();
    assert_eq!(result, Ok(()));
    assert_eq!(repository.head(), head);
    for (path, seed) in [("a", 1u8), ("b", 2), ("c", 3)] {
        assert_eq!(
            repository.index.get(path),
            Some(IndexEntry {
                is_tracked: true,
                is_added: false,
                cached: Some(Cached::Hashed(hash_of(seed))),
            })
        );
    }
    assert_eq!(repository.index.len(), 3);
}

#[test]
fn chunks_are_reported_at_the_sum_of_what_came_before() {
    let ctx: Context<(), ()> = Context::new(Repository::new(Index::new(), None), (), ());
    let (mut splitter, begin) = ctx.split_file(1000);
    assert_eq!(begin, TraceEvent::SplitBegin { total: 1000 });
    assert_eq!(splitter.position(), 0);
    assert_eq!(splitter.chunk(300), TraceEvent::SplitChunk { offset: 0, length: 300 });
    assert_eq!(splitter.chunk(0), TraceEvent::SplitChunk { offset: 300, length: 0 });
    assert_eq!(splitter.chunk(699), TraceEvent::SplitChunk { offset: 300, length: 699 });
    assert_eq!(splitter.chunk(1), TraceEvent::SplitChunk { offset: 999, length: 1 });
    assert_eq!(splitter.position(), 1000);
}

#[test]
fn an_empty_file_has_no_chunks() {
    let (splitter, begin) = Splitter::begin(0);
    assert_eq!(begin, TraceEvent::SplitBegin { total: 0 });
    assert_eq!(splitter.position(), 0);
}

#[test]
fn a_splitter_counts_up_to_the_largest_offset() {
    let (mut splitter, _) = Splitter::begin(u64::MAX);
    assert_eq!(
        splitter.chunk(u64::MAX - 1),
        TraceEvent::SplitChunk { offset: 0, length: u64::MAX - 1 }
    );
    assert_eq!(splitter.chunk(1), TraceEvent::SplitChunk { offset: u64::MAX - 1, length: 1 });
    assert_eq!(splitter.position(), u64::MAX);
}

#[test]
fn a_batch_is_taken_as_far_as_there_is_room() {
    let mut pipeline = WritePipeline::new(3, 1);
    assert_eq!(pipeline.offer(object(1)), Offer::Accepted);
    let rest = pipeline.offer_all(vec![object(2), object(3), object(4), object(5)]);
    assert_eq!(rest, vec![object(4), object(5)]);
    assert_eq!(pipeline.queued(), 3);
    assert_eq!(pipeline.offer_all(vec![object(6)]), vec![object(6)]);
    assert_eq!(pipeline.offer_all(vec![]), Vec::<Hashed>::new());

    let mut order = Vec::new();
    while let Some((_, next)) = pipeline.start() {
        order.push(next.as_hash().bytes[0]);
        assert!(pipeline.finish(*next.as_hash(), Ok(true)).is_ok());
    }
    assert_eq!(order, vec![1, 2, 3]);
    assert_eq!(pipeline.offer_all(vec![object(4), object(5)]), Vec::<Hashed>::new());
    assert_eq!(pipeline.queued(), 2);
}

#[test]
fn a_failed_writer_hands_a_batch_back_whole() {
    let mut pipeline = WritePipeline::new(3, 1);
    assert_eq!(pipeline.offer(object(1)), Offer::Accepted);
    assert!(pipeline.start().is_some());
    let gone = Error::Msg("gone".to_string());
    assert_eq!(pipeline.failure(), None);
    assert_eq!(pipeline.finish(hash_of(1), Err(gone.clone())), Err(gone.clone()));
    assert_eq!(pipeline.failure(), Some(&gone));
    assert_eq!(pipeline.offer_all(vec![object(2), object(3)]), vec![object(2), object(3)]);
    assert_eq!(pipeline.queued(), 0);
}

#[test]
fn a_file_is_hashed_once_all_its_objects_are_queued() {
    let mut ctx: Context<(), ()> = Context::new(Repository::new(Index::new(), None), (), ());
    let file = hash_of(99);
    assert_eq!(ctx.hash_file(vec![], file), Ok(Marshalling::Done(file)));
    assert_eq!(ctx.hash_file(vec![object(1), object(2)], file), Ok(Marshalling::Done(file)));
    assert_eq!(ctx.writes().queued(), 2);

    let many: Vec<Hashed> = (0..BATCH_FUTURE_BUFFER_SIZE as u8).map(object).collect();
    let waiting = match ctx.hash_file(many, file) {
        Ok(Marshalling::Suspended(waiting)) => waiting,
        other => panic!("expected to wait for room, got {:?}", other),
    };
    assert_eq!(ctx.writes().queued(), BATCH_FUTURE_BUFFER_SIZE);
    let last = BATCH_FUTURE_BUFFER_SIZE as u8;
    assert_eq!(waiting, vec![object(last - 2), object(last - 1)]);

    assert_eq!(
        ctx.hash_file(waiting, file),
        Ok(Marshalling::Suspended(vec![object(last - 2), object(last - 1)]))
    );
    for _ in 0..2 {
        let (_, next) = ctx.start_write().unwrap();
        assert!(ctx.finish_write(*next.as_hash(), Ok(false)).is_ok());
    }
    assert_eq!(
        ctx.hash_file(vec![object(last - 2), object(last - 1)], file),
        Ok(Marshalling::Done(file))
    );
    assert_eq!(ctx.writes().queued(), BATCH_FUTURE_BUFFER_SIZE);
}

#[test]
fn a_file_is_not_hashed_once_the_writer_has_failed() {
    let mut ctx: Context<(), ()> = Context::new(Repository::new(Index::new(), None), (), ());
    assert_eq!(ctx.enqueue(object(1)), Offer::Accepted);
    assert!(ctx.start_write().is_some());
    let full = Error::Io("no space left on device".to_string());
    assert_eq!(ctx.finish_write(hash_of(1), Err(full.clone())), Err(full.clone()));
    assert_eq!(ctx.hash_file(vec![object(2)], hash_of(2)), Err(full.clone()));
    assert_eq!(ctx.hash_file(vec![], hash_of(2)), Err(full.clone()));
    assert_eq!(ctx.writes().queued(), 0);
    let (_, result) = ctx.close();
    assert_eq!(result, Err(full));
}
