use knowledge_index::engine::embedder::{
    dot_product, ChunkEmbedding, EmbedError, Embedder, TextChunk,
};
use knowledge_index::engine::model::{FileKind, Filters, Meta, Scope};
use knowledge_index::engine::vectors::EmbeddingStore;
use knowledge_index::engine::watcher::ChangeType::{Created, Deleted, Modified};
use knowledge_index::engine::watcher::{
    compare_looks, merge, ChangeType, IndexWatcher, Seen, WatchState,
};

fn meta(chunk_id: u64, repo_id: u64, length: usize, path: &str) -> Meta {
    Meta { chunk_id, repo_id, kind: FileKind::Code, length, path: path.as_bytes().to_vec() }
}

fn embedding(chunk_id: u64, model: &str, vector: Vec<i16>) -> ChunkEmbedding {
    ChunkEmbedding { chunk_id, model_id: model.as_bytes().to_vec(), vector }
}

fn text_chunk(chunk_id: u64) -> TextChunk {
    TextChunk { chunk_id, text: format!("text {}", chunk_id).into_bytes() }
}

#[test]
fn rapid_edits_of_one_file_become_one_change() {
    let mut w = IndexWatcher::new(7, 500, 100);
    assert_eq!(w.state(), WatchState::Idle);
    for t in 0..25u64 {
        w.on_event(b"src/a.rs", ChangeType::Modified, t * 10);
        assert_eq!(w.state(), WatchState::PendingBatch);
    }
    assert_eq!(w.waiting(), 1);
    assert!(w.tick(739).is_none());
    let batch = w.tick(740).unwrap();
    assert_eq!(batch.repo_id, 7);
    assert!(!batch.full_rescan);
    assert_eq!(batch.changes.len(), 1);
    assert_eq!(batch.changes[0].path, b"src/a.rs".to_vec());
    assert_eq!(batch.changes[0].change, ChangeType::Modified);
    assert_eq!(batch.changes[0].detected_at, 240);
    assert_eq!(w.state(), WatchState::Flushing);
    w.acknowledge();
    assert_eq!(w.state(), WatchState::Idle);
}

#[test]
fn changes_of_one_file_merge() {
    assert_eq!(merge(Created, Deleted), None);
    assert_eq!(merge(Created, Modified), Some(Created));
    assert_eq!(merge(Created, Created), Some(Created));
    assert_eq!(merge(Modified, Deleted), Some(Deleted));
    assert_eq!(merge(Modified, Modified), Some(Modified));
    assert_eq!(merge(Modified, Created), Some(Modified));
    assert_eq!(merge(Deleted, Created), Some(Modified));
    assert_eq!(merge(Deleted, Modified), Some(Modified));
    assert_eq!(merge(Deleted, Deleted), Some(Deleted));
}

#[test]
fn created_then_deleted_is_no_change() {
    let mut w = IndexWatcher::new(1, 300, 100);
    w.on_event(b"tmp", ChangeType::Created, 0);
    w.on_event(b"keep", ChangeType::Created, 1);
    w.on_event(b"tmp", ChangeType::Deleted, 2);
    let batch = w.tick(302).unwrap();
    assert_eq!(batch.changes.len(), 1);
    assert_eq!(batch.changes[0].path, b"keep".to_vec());

    let mut lone = IndexWatcher::new(1, 300, 100);
    lone.on_event(b"tmp", ChangeType::Created, 0);
    lone.on_event(b"tmp", ChangeType::Deleted, 5);
    assert_eq!(lone.waiting(), 0);
    assert!(lone.tick(1000).is_none());
    assert_eq!(lone.state(), WatchState::Idle);
}

#[test]
fn batch_keeps_the_order_in_which_files_were_first_seen() {
    let mut w = IndexWatcher::new(1, 100, 100);
    w.on_event(b"b", ChangeType::Modified, 0);
    w.on_event(b"a", ChangeType::Created, 1);
    w.on_event(b"b", ChangeType::Deleted, 2);
    let batch = w.tick(102).unwrap();
    let seen: Vec<(Vec<u8>, ChangeType)> =
        batch.changes.iter().map(|c| (c.path.clone(), c.change)).collect();
    assert_eq!(
        seen,
        vec![(b"b".to_vec(), ChangeType::Deleted), (b"a".to_vec(), ChangeType::Created)]
    );
}

#[test]
fn too_many_changes_force_a_full_rescan() {
    let mut w = IndexWatcher::new(1, 100, 2);
    w.on_event(b"a", ChangeType::Modified, 0);
    w.on_event(b"b", ChangeType::Modified, 1);
    assert_eq!(w.waiting(), 2);
    w.on_event(b"c", ChangeType::Modified, 2);
    assert_eq!(w.waiting(), 0);
    w.on_event(b"d", ChangeType::Modified, 3);
    assert_eq!(w.waiting(), 0);
    let batch = w.tick(103).unwrap();
    assert!(batch.full_rescan);
    assert!(batch.changes.is_empty());
}

#[test]
fn lost_events_force_a_full_rescan() {
    let mut w = IndexWatcher::new(1, 100, 50);
    w.on_event(b"a", ChangeType::Modified, 0);
    w.on_gap(10);
    assert_eq!(w.state(), WatchState::PendingBatch);
    assert!(w.tick(109).is_none());
    let batch = w.tick(110).unwrap();
    assert!(batch.full_rescan);
    assert!(batch.changes.is_empty());
}

#[test]
fn events_during_a_flush_wait_for_the_next_batch() {
    let mut w = IndexWatcher::new(1, 100, 50);
    w.on_event(b"a", ChangeType::Modified, 0);
    assert!(w.tick(100).is_some());
    w.on_event(b"b", ChangeType::Created, 120);
    assert_eq!(w.state(), WatchState::Flushing);
    assert!(w.tick(500).is_none());
    w.acknowledge();
    assert_eq!(w.state(), WatchState::PendingBatch);
    let next = w.tick(220).unwrap();
    assert_eq!(next.changes[0].path, b"b".to_vec());
}

#[test]
fn deadline_saturates_at_the_end_of_time() {
    let mut w = IndexWatcher::new(1, 10, 50);
    w.on_event(b"a", ChangeType::Modified, u64::MAX - 3);
    assert!(w.tick(u64::MAX - 1).is_none());
    assert!(w.tick(u64::MAX).is_some());
}

#[test]
fn batches_hold_all_chunks_in_order() {
    let embedder = Embedder::new(b"m".to_vec(), 2, 3).unwrap();
    let batches = embedder.plan_batches((1..=8).map(text_chunk).collect());
    let ids: Vec<Vec<u64>> =
        batches.iter().map(|b| b.iter().map(|c| c.chunk_id).collect()).collect();
    assert_eq!(ids, vec![vec![1, 2, 3], vec![4, 5, 6], vec![7, 8]]);
    assert!(embedder.plan_batches(Vec::new()).is_empty());
    assert_eq!(embedder.plan_batches((1..=3).map(text_chunk).collect()).len(), 1);
}

#[test]
fn unsound_embedder_configurations_are_refused() {
    assert!(Embedder::new(b"m".to_vec(), 0, 1).is_none());
    assert!(Embedder::new(b"m".to_vec(), 4097, 1).is_none());
    assert!(Embedder::new(b"m".to_vec(), 4, 0).is_none());
    assert!(Embedder::new(b"m".to_vec(), 4096, 1).is_some());
}

#[test]
fn model_output_is_checked_and_stamped() {
    let embedder = Embedder::new(b"mini".to_vec(), 2, 8).unwrap();
    let batch = vec![text_chunk(4), text_chunk(9)];
    let good = embedder.accept(&batch, Some(vec![vec![1, 2], vec![3, 4]])).unwrap();
    assert_eq!(good.len(), 2);
    assert_eq!(good[1].chunk_id, 9);
    assert_eq!(good[1].model_id, b"mini".to_vec());
    assert_eq!(good[1].vector, vec![3, 4]);
    assert_eq!(embedder.accept(&batch, None).err(), Some(EmbedError::Unavailable));
    assert_eq!(embedder.accept(&batch, Some(vec![vec![1, 2]])).err(), Some(EmbedError::Malformed));
    assert_eq!(
        embedder.accept(&batch, Some(vec![vec![1, 2], vec![3]])).err(),
        Some(EmbedError::Malformed)
    );
}

#[test]
fn dot_product_is_exact() {
    assert_eq!(dot_product(&vec![1, -2, 3], &vec![4, 5, -6]), -24);
    assert_eq!(dot_product(&vec![i16::MIN; 4], &vec![i16::MIN; 4]), 4 * 32768 * 32768);
    assert_eq!(dot_product(&vec![], &vec![]), 0);
}

#[test]
fn nearest_ranks_by_cosine_similarity() {
    let mut store = EmbeddingStore::new();
    store.upsert(meta(1, 1, 5, "a"), embedding(1, "m", vec![10, 0])).unwrap();
    store.upsert(meta(2, 1, 5, "b"), embedding(2, "m", vec![100, 100])).unwrap();
    store.upsert(meta(3, 1, 5, "c"), embedding(3, "m", vec![-1, 0])).unwrap();
    store.upsert(meta(4, 1, 5, "d"), embedding(4, "m", vec![0, 7])).unwrap();
    let near = store.nearest(&vec![2, 0], b"m", &Filters::none(), 10);
    let ids: Vec<u64> = near.iter().map(|n| n.meta.chunk_id).collect();
    assert_eq!(ids, vec![1, 2, 4, 3]);
    assert_eq!((near[0].dot, near[0].norm_sq, near[0].query_norm_sq), (20, 100, 4));
    assert_eq!((near[3].dot, near[3].norm_sq), (-2, 1));
    let top = store.nearest(&vec![2, 0], b"m", &Filters::none(), 2);
    assert_eq!(top.len(), 2);
}

#[test]
fn equal_similarity_falls_to_the_tie_break() {
    let mut store = EmbeddingStore::new();
    store.upsert(meta(1, 1, 9, "a"), embedding(1, "m", vec![1, 1])).unwrap();
    store.upsert(meta(2, 1, 5, "z"), embedding(2, "m", vec![3, 3])).unwrap();
    store.upsert(meta(3, 1, 5, "b"), embedding(3, "m", vec![2, 2])).unwrap();
    let near = store.nearest(&vec![1, 1], b"m", &Filters::none(), 10);
    let ids: Vec<u64> = near.iter().map(|n| n.meta.chunk_id).collect();
    assert_eq!(ids, vec![3, 2, 1]);
}

#[test]
fn vectors_of_another_model_count_as_absent() {
    let mut store = EmbeddingStore::new();
    store.upsert(meta(1, 1, 5, "a"), embedding(1, "old", vec![1, 0, 0])).unwrap();
    store.upsert(meta(2, 1, 5, "b"), embedding(2, "new", vec![1, 0])).unwrap();
    let near = store.nearest(&vec![1, 0], b"new", &Filters::none(), 10);
    assert_eq!(near.len(), 1);
    assert_eq!(near[0].meta.chunk_id, 2);
    assert!(store.nearest(&vec![1, 0], b"none", &Filters::none(), 10).is_empty());
    assert!(store.nearest(&vec![1, 0, 0, 0], b"old", &Filters::none(), 10).is_empty());
}

#[test]
fn one_model_has_one_dimension() {
    let mut store = EmbeddingStore::new();
    store.upsert(meta(1, 1, 5, "a"), embedding(1, "m", vec![1, 2])).unwrap();
    assert_eq!(
        store.upsert(meta(2, 1, 5, "b"), embedding(2, "m", vec![1, 2, 3])),
        Err(EmbedError::Malformed)
    );
    assert_eq!(store.upsert(meta(2, 1, 5, "b"), embedding(2, "m", vec![])), Err(EmbedError::Malformed));
    assert_eq!(
        store.upsert(meta(2, 1, 5, "b"), embedding(3, "m", vec![1, 2])),
        Err(EmbedError::Malformed)
    );
    assert_eq!(store.len(), 1);
    assert!(store.upsert(meta(2, 1, 5, "b"), embedding(2, "other", vec![1, 2, 3])).is_ok());
}

#[test]
fn a_new_vector_replaces_the_old_one_of_its_chunk() {
    let mut store = EmbeddingStore::new();
    store.upsert(meta(1, 1, 5, "a"), embedding(1, "m", vec![1, 0])).unwrap();
    store.upsert(meta(1, 1, 5, "a"), embedding(1, "m", vec![0, 1])).unwrap();
    assert_eq!(store.len(), 1);
    assert_eq!(store.stored(0).vector, vec![0, 1]);
    assert_eq!(store.stored(0).norm_sq, 1);
}

#[test]
fn vectors_leave_by_chunk_and_by_scope() {
    let mut store = EmbeddingStore::new();
    store.upsert(meta(1, 1, 5, "a"), embedding(1, "m", vec![1, 0])).unwrap();
    store.upsert(meta(2, 1, 5, "b"), embedding(2, "m", vec![1, 0])).unwrap();
    store.upsert(meta(3, 2, 5, "a"), embedding(3, "m", vec![1, 0])).unwrap();
    store.upsert(meta(4, 2, 5, "c"), embedding(4, "m", vec![1, 0])).unwrap();
    store.delete(&vec![2, 9]);
    assert_eq!(store.len(), 3);
    store.remove(&Scope::Document(2, b"a".to_vec()));
    assert_eq!(store.len(), 2);
    store.remove(&Scope::Repository(2));
    assert_eq!(store.len(), 1);
    assert_eq!(store.stored(0).meta.chunk_id, 1);
}

#[test]
fn two_looks_tell_what_changed() {
    let seen = |path: &str, hash: u64| Seen { path: path.as_bytes().to_vec(), hash };
    let before = vec![seen("a", 1), seen("b", 2), seen("c", 3), seen("d", 4)];
    let after = vec![seen("e", 9), seen("a", 1), seen("c", 7), seen("d", 4)];
    let found: Vec<(Vec<u8>, ChangeType)> =
        compare_looks(&before, &after).iter().map(|d| (d.path.clone(), d.change)).collect();
    assert_eq!(
        found,
        vec![(b"e".to_vec(), Created), (b"c".to_vec(), Modified), (b"b".to_vec(), Deleted)]
    );
    assert!(compare_looks(&before, &before).is_empty());
    assert_eq!(compare_looks(&Vec::new(), &after).len(), 4);
}
