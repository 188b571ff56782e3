use marshal_engine::context::Context;
use marshal_engine::error::Error;
use marshal_engine::index::{Cached, Index, IndexEntry, Repository};
use marshal_engine::object::{Hashed, ObjectHash};

fn mark(seed: u8) -> ObjectHash {
    let mut bytes = [0u8; 32];
    bytes[5] = seed;
    ObjectHash { bytes }
}

#[test]
fn digests_are_equal_when_all_their_bytes_are() {
    let a = ObjectHash { bytes: [1; 32] };
    let mut bytes = [1u8; 32];
    assert_eq!(a, ObjectHash { bytes });
    bytes[31] = 2;
    assert_ne!(a, ObjectHash { bytes });
    bytes[31] = 1;
    bytes[0] = 0;
    assert_ne!(a, ObjectHash { bytes });
}

#[test]
fn an_object_keeps_its_digest_and_its_payload() {
    let hashed = Hashed::new(mark(1), vec![10, 20, 30]);
    assert_eq!(*hashed.as_hash(), mark(1));
    assert_eq!(*hashed.payload(), vec![10, 20, 30]);
}

#[test]
fn an_index_keeps_one_record_for_each_path() {
    let mut index = Index::new();
    assert_eq!(index.len(), 0);
    assert_eq!(index.get("a"), None);
    let first = IndexEntry { is_tracked: true, is_added: false, cached: None };
    let second = IndexEntry { is_tracked: false, is_added: true, cached: Some(Cached::Removed) };
    index.insert("a".to_string(), first);
    index.insert("b".to_string(), first);
    assert_eq!(index.len(), 2);
    index.insert("a".to_string(), second);
    assert_eq!(index.len(), 2);
    assert_eq!(index.get("a"), Some(second));
    assert_eq!(index.get("b"), Some(first));
    assert_eq!(index.get("c"), None);
    assert_eq!(
        *index.entries(),
        vec![("a".to_string(), second), ("b".to_string(), first)]
    );
    assert_eq!(index.clone(), index);
}

#[test]
fn a_clean_sets_the_digest_and_keeps_the_flags() {
    let mut index = Index::new();
    index.insert(
        "a".to_string(),
        IndexEntry { is_tracked: true, is_added: true, cached: Some(Cached::Unhashed) },
    );
    index.insert(
        "b".to_string(),
        IndexEntry { is_tracked: false, is_added: true, cached: Some(Cached::Removed) },
    );
    index.clean("a".to_string(), mark(1));
    assert_eq!(
        index.get("a"),
        Some(IndexEntry { is_tracked: true, is_added: true, cached: Some(Cached::Hashed(mark(1))) })
    );
    assert_eq!(
        index.get("b"),
        Some(IndexEntry { is_tracked: false, is_added: true, cached: Some(Cached::Removed) })
    );
    index.clean("a".to_string(), mark(2));
    assert_eq!(index.get("a").unwrap().get(), Some(Cached::Hashed(mark(2))));
    assert_eq!(index.len(), 2);
}

#[test]
fn a_clean_of_an_unknown_path_adds_it() {
    let mut index = Index::new();
    index.clean("new".to_string(), mark(9));
    assert_eq!(index.len(), 1);
    assert_eq!(
        index.get("new"),
        Some(IndexEntry {
            is_tracked: false,
            is_added: false,
            cached: Some(Cached::Hashed(mark(9))),
        })
    );
}

#[test]
fn an_entry_is_cleaned_in_place() {
    let mut entry = IndexEntry { is_tracked: true, is_added: false, cached: None };
    assert_eq!(entry.get(), None);
    entry.clean(mark(4));
    assert_eq!(
        entry,
        IndexEntry { is_tracked: true, is_added: false, cached: Some(Cached::Hashed(mark(4))) }
    );
}

#[test]
fn a_context_hands_out_what_it_was_made_of() {
    let mut index = Index::new();
    index.insert("a".to_string(), IndexEntry { is_tracked: true, is_added: false, cached: None });
    let repository = Repository::new(index, Some(mark(3)));
    let ctx = Context::new(repository.clone(), "observer", 17u32);
    assert_eq!(*ctx.repository(), repository);
    assert_eq!(*ctx.trace(), "observer");
    assert_eq!(*ctx.store(), 17);
    assert!(ctx.writes().is_idle());
    assert!(!ctx.writes().has_failed());
    let (back, result) = ctx.close();
    assert_eq!(result, Ok(()));
    assert_eq!(back, repository);
}

#[test]
fn an_error_is_copied_with_its_cause() {
    let nested = Error::DirTreeDelta(Box::new(Error::DirTreeDelta(Box::new(Error::Io(
        "broken pipe".to_string(),
    )))));
    assert_eq!(nested.clone(), nested);
    assert_eq!(Error::Absurd.clone(), Error::Absurd);
    assert_ne!(Error::Msg("a".to_string()), Error::Io("a".to_string()));
}

#[test]
fn a_repository_can_be_changed_through_its_context() {
    let mut index = Index::new();
    index.insert("a".to_string(), IndexEntry { is_tracked: true, is_added: false, cached: None });
    let mut ctx = Context::new(Repository::new(index, None), (), ());
    ctx.repository_mut().head = Some(mark(8));
    ctx.repository_mut().index.insert(
        "b".to_string(),
        IndexEntry { is_tracked: false, is_added: true, cached: Some(Cached::Removed) },
    );
    assert_eq!(ctx.repository().head(), Some(mark(8)));
    assert_eq!(ctx.repository().index.len(), 2);
    let (repository, result) = ctx.close();
    assert_eq!(result, Ok(()));
    assert_eq!(repository.head(), Some(mark(8)));
    assert_eq!(
        repository.index.get("b"),
        Some(IndexEntry { is_tracked: false, is_added: true, cached: Some(Cached::Removed) })
    );
}
