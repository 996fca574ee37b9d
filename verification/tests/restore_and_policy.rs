use knowledge_index::engine::chunker::ChunkConfig;
use knowledge_index::engine::embedder::ChunkEmbedding;
use knowledge_index::engine::indexer::{Corpus, Document, FileEntry, IndexError, Indexer};
use knowledge_index::engine::lexical::{Entry, LexicalIndex};
use knowledge_index::engine::locks::{backoff, retry, WriteLocks};
use knowledge_index::engine::manifest::{Manifest, ManifestEntry};
use knowledge_index::engine::model::{Chunk, ErrorKind, FileKind, Filters, Meta, Recovery, Scope};
use knowledge_index::engine::registry::{Registry, Repository};
use knowledge_index::engine::text::{hash_bytes, tokenize};
use knowledge_index::engine::vectors::{EmbeddingStore, StoredVector};

fn entry(chunk_id: u64, repo_id: u64, path: &str, text: &str) -> Entry {
    Entry {
        meta: Meta {
            chunk_id,
            repo_id,
            kind: FileKind::Code,
            length: text.len(),
            path: path.as_bytes().to_vec(),
        },
        ordinal: 0,
        start: 0,
        end: text.len(),
        text: text.as_bytes().to_vec(),
        structural_path: Vec::new(),
        tokens: tokenize(text.as_bytes()),
    }
}

fn document(repo_id: u64, path: &str, text: &str, first_chunk: u64) -> Document {
    Document {
        repo_id,
        path: path.as_bytes().to_vec(),
        content_hash: hash_bytes(text.as_bytes()),
        kind: FileKind::Code,
        mtime: 0,
        first_chunk,
        chunk_count: 1,
    }
}

fn vector(chunk_id: u64, repo_id: u64, path: &str, length: usize, v: Vec<i16>) -> StoredVector {
    let norm_sq = v.iter().map(|x| (*x as i64 * *x as i64) as u64).sum();
    StoredVector {
        meta: Meta { chunk_id, repo_id, kind: FileKind::Code, length, path: path.as_bytes().to_vec() },
        model_id: b"m".to_vec(),
        vector: v,
        norm_sq,
    }
}

fn repository(id: u64, root: &str) -> Repository {
    Repository {
        id,
        root_path: root.as_bytes().to_vec(),
        display_name: root.as_bytes().to_vec(),
        created_at: 0,
        last_indexed_at: 0,
        generation: 0,
    }
}

#[test]
fn sound_corpus_is_restored() {
    let corpus = Corpus::restore(
        vec![document(1, "a.rs", "fn a", 1), document(1, "b.rs", "fn b", 2)],
        vec![entry(1, 1, "a.rs", "fn a"), entry(2, 1, "b.rs", "fn b")],
        vec![vector(2, 1, "b.rs", 4, vec![3, 4])],
        3,
    )
    .unwrap();
    assert_eq!(corpus.lexical().len(), 2);
    assert_eq!(corpus.vectors().stored(0).norm_sq, 25);
    assert_eq!(corpus.upcoming(), 3);
    assert_eq!(corpus.lexical().query(b"fn", &Filters::none(), 10).unwrap().len(), 2);
}

#[test]
fn entry_with_wrong_tokens_is_corrupt() {
    let mut bad = entry(1, 1, "a.rs", "fn a");
    bad.tokens = vec![b"other".to_vec()];
    assert!(LexicalIndex::restore(vec![bad]).is_none());
    let mut short = entry(1, 1, "a.rs", "fn a");
    short.meta.length = 3;
    assert!(LexicalIndex::restore(vec![short]).is_none());
    assert!(LexicalIndex::restore(vec![entry(1, 1, "a.rs", "fn a")]).is_some());
}

#[test]
fn vector_with_wrong_length_or_dimension_is_corrupt() {
    let mut wrong_norm = vector(1, 1, "a", 1, vec![3, 4]);
    wrong_norm.norm_sq = 24;
    assert!(EmbeddingStore::restore(vec![wrong_norm]).is_none());
    assert!(EmbeddingStore::restore(vec![vector(1, 1, "a", 1, vec![])]).is_none());
    let mixed = vec![vector(1, 1, "a", 1, vec![1, 0]), vector(2, 1, "b", 1, vec![1, 0, 0])];
    assert!(EmbeddingStore::restore(mixed).is_none());
    let twice = vec![vector(1, 1, "a", 1, vec![1, 0]), vector(1, 1, "a", 1, vec![0, 1])];
    assert!(EmbeddingStore::restore(twice).is_none());
    let fine = vec![vector(1, 1, "a", 1, vec![1, 0]), vector(2, 1, "b", 1, vec![0, 1])];
    assert!(EmbeddingStore::restore(fine).is_some());
}

#[test]
fn chunk_without_document_is_corrupt() {
    let orphan = Corpus::restore(
        vec![document(1, "a.rs", "fn a", 1)],
        vec![entry(1, 1, "a.rs", "fn a"), entry(2, 1, "gone.rs", "fn b")],
        Vec::new(),
        3,
    );
    assert!(orphan.is_none());
}

#[test]
fn vector_without_chunk_is_corrupt() {
    let stray = Corpus::restore(
        vec![document(1, "a.rs", "fn a", 1)],
        vec![entry(1, 1, "a.rs", "fn a")],
        vec![vector(9, 1, "a.rs", 4, vec![1])],
        3,
    );
    assert!(stray.is_none());
}

#[test]
fn repeated_chunk_id_or_document_is_corrupt() {
    let twice = Corpus::restore(
        vec![document(1, "a.rs", "fn a", 1), document(1, "b.rs", "fn b", 1)],
        vec![entry(1, 1, "a.rs", "fn a"), entry(1, 1, "b.rs", "fn b")],
        Vec::new(),
        3,
    );
    assert!(twice.is_none());
    let beyond = Corpus::restore(
        vec![document(1, "a.rs", "fn a", 1)],
        vec![entry(5, 1, "a.rs", "fn a")],
        Vec::new(),
        5,
    );
    assert!(beyond.is_none());
    let same_file = Corpus::restore(
        vec![document(1, "a.rs", "fn a", 1), document(1, "a.rs", "fn a", 1)],
        vec![entry(1, 1, "a.rs", "fn a")],
        Vec::new(),
        3,
    );
    assert!(same_file.is_none());
}

#[test]
fn registry_with_shared_path_or_id_is_corrupt() {
    assert!(Registry::restore(vec![repository(1, "/a"), repository(2, "/b")], 3).is_some());
    assert!(Registry::restore(vec![repository(1, "/a"), repository(2, "/a")], 3).is_none());
    assert!(Registry::restore(vec![repository(1, "/a"), repository(1, "/b")], 3).is_none());
    assert!(Registry::restore(vec![repository(3, "/a")], 3).is_none());
}

#[test]
fn restored_indexer_goes_on_where_the_last_run_stopped() {
    let registry = Registry::restore(vec![repository(4, "/repo")], 5);
    let corpus = Corpus::restore(
        vec![document(4, "a.rs", "fn a", 7)],
        vec![entry(7, 4, "a.rs", "fn a")],
        Vec::new(),
        8,
    );
    let mut indexer = Indexer::restore(ChunkConfig::standard(), registry, corpus).unwrap();
    assert_eq!(indexer.upcoming(), 5);
    let files = vec![
        FileEntry { path: b"a.rs".to_vec(), kind: FileKind::Code, content: b"fn a".to_vec(), mtime: 0 },
        FileEntry { path: b"b.rs".to_vec(), kind: FileKind::Code, content: b"fn b".to_vec(), mtime: 0 },
    ];
    let report = indexer.update(4, files, 9).unwrap();
    assert_eq!(report.changed, 1);
    assert_eq!(report.queue[0].chunk_id, 8);
    let e = ChunkEmbedding { chunk_id: 8, model_id: b"m".to_vec(), vector: vec![1] };
    assert_eq!(indexer.store_embeddings(4, 0, vec![e]), Ok(1));
}

#[test]
fn corrupt_parts_fail_the_restore() {
    let bad = ChunkConfig { max_bytes: 0, window_lines: 1, overlap_lines: 0 };
    assert_eq!(
        Indexer::restore(bad, Some(Registry::new()), Some(Corpus::new())).err(),
        Some(IndexError::Corrupt)
    );
    assert_eq!(
        Indexer::restore(ChunkConfig::standard(), None, Some(Corpus::new())).err(),
        Some(IndexError::Corrupt)
    );
    assert_eq!(
        Indexer::restore(ChunkConfig::standard(), Some(Registry::new()), None).err(),
        Some(IndexError::Corrupt)
    );
}

#[test]
fn indexing_twice_is_indexing_once() {
    let files = || {
        vec![
            FileEntry { path: b"a.md".to_vec(), kind: FileKind::Markdown, content: b"# A\nx\n## B\ny".to_vec(), mtime: 1 },
            FileEntry { path: b"b.py".to_vec(), kind: FileKind::Code, content: b"def f(): 1\ndef g(): 2\n".to_vec(), mtime: 1 },
        ]
    };
    let mut corpus = Corpus::new();
    let cfg = ChunkConfig::standard();
    let first = corpus.sync(&cfg, 1, files());
    assert_eq!((first.changed, first.queue.len()), (2, 4));
    let ids: Vec<u64> = (0..4).map(|i| corpus.lexical().entry(i).meta.chunk_id).collect();
    assert_eq!(ids, vec![1, 2, 3, 4]);
    let second = corpus.sync(&cfg, 1, files());
    assert_eq!((second.changed, second.removed, second.queue.len()), (0, 0, 0));
    let again: Vec<u64> = (0..4).map(|i| corpus.lexical().entry(i).meta.chunk_id).collect();
    assert_eq!(again, ids);
    assert_eq!(corpus.upcoming(), 5);
}

#[test]
fn dropping_a_document_takes_its_chunks_and_vectors() {
    let mut corpus = Corpus::restore(
        vec![document(1, "a.rs", "fn a", 1), document(1, "b.rs", "fn b", 2)],
        vec![entry(1, 1, "a.rs", "fn a"), entry(2, 1, "b.rs", "fn b")],
        vec![vector(1, 1, "a.rs", 4, vec![1]), vector(2, 1, "b.rs", 4, vec![1])],
        3,
    )
    .unwrap();
    corpus.drop(&Scope::Document(1, b"a.rs".to_vec()));
    assert_eq!(corpus.documents().len(), 1);
    assert_eq!(corpus.lexical().len(), 1);
    assert_eq!(corpus.vectors().len(), 1);
    assert_eq!(corpus.vectors().stored(0).meta.chunk_id, 2);
    assert!(corpus.is_known(1, b"b.rs", hash_bytes(b"fn b")));
    assert!(!corpus.is_known(1, b"a.rs", hash_bytes(b"fn a")));
}

#[test]
fn posting_list_gives_frequency_and_positions() {
    let mut index = LexicalIndex::new();
    let chunk = |text: &str| {
        vec![Chunk {
            ordinal: 0,
            start: 0,
            end: text.len(),
            text: text.as_bytes().to_vec(),
            structural_path: Vec::new(),
        }]
    };
    index.upsert(1, FileKind::Code, b"a", 10, chunk("To be or not to be"));
    index.upsert(1, FileKind::Code, b"b", 20, chunk("nothing here"));
    index.upsert(1, FileKind::Code, b"c", 30, chunk("be"));
    let seen: Vec<(u64, usize, Vec<usize>)> = index
        .postings(b"be")
        .iter()
        .map(|p| (p.chunk_id, p.term_frequency, p.positions.clone()))
        .collect();
    assert_eq!(seen, vec![(10, 2, vec![1, 5]), (30, 1, vec![0])]);
    assert!(index.postings(b"Be").is_empty());
}

#[test]
fn each_failure_has_its_recovery() {
    assert_eq!(ErrorKind::Io.recovery(), Recovery::Abort);
    assert_eq!(ErrorKind::Parse.recovery(), Recovery::Abort);
    assert_eq!(ErrorKind::EmbeddingUnavailable.recovery(), Recovery::DegradeToLexical);
    assert_eq!(ErrorKind::IndexCorruption.recovery(), Recovery::FullRebuild);
    assert_eq!(ErrorKind::WatchGapDetected.recovery(), Recovery::FullRescan);
    assert_eq!(ErrorKind::ConcurrentWriteConflict.recovery(), Recovery::Retry);
    assert!(ErrorKind::Io.fails_caller());
    assert!(!ErrorKind::WatchGapDetected.fails_caller());
    assert!(!ErrorKind::EmbeddingUnavailable.fails_caller());
}

#[test]
fn full_registry_refuses_a_new_repository() {
    let registry = Registry::restore(vec![repository(7, "/known")], u64::MAX);
    let mut indexer =
        Indexer::restore(ChunkConfig::standard(), registry, Some(Corpus::new())).unwrap();
    assert_eq!(
        indexer.index(b"/new", None, Vec::new(), 1).err(),
        Some(IndexError::RegistryFull)
    );
    assert_eq!(indexer.list().len(), 1);
    assert_eq!(indexer.index(b"/known", None, Vec::new(), 1).unwrap().repo_id, 7);
}

#[test]
fn file_is_skipped_when_chunk_ids_run_out() {
    let mut corpus = Corpus::restore(Vec::new(), Vec::new(), Vec::new(), u64::MAX - 1).unwrap();
    let cfg = ChunkConfig::new(4, 1, 0).unwrap();
    let two_chunks =
        FileEntry { path: b"a".to_vec(), kind: FileKind::Config, content: b"x\ny\n".to_vec(), mtime: 0 };
    let one_chunk =
        FileEntry { path: b"b".to_vec(), kind: FileKind::Config, content: b"z\n".to_vec(), mtime: 0 };
    let report = corpus.sync(&cfg, 1, vec![two_chunks, one_chunk]);
    assert_eq!(report.changed, 1);
    assert_eq!(corpus.lexical().len(), 1);
    assert_eq!(corpus.lexical().entry(0).meta.path, b"b".to_vec());
    assert_eq!(corpus.lexical().entry(0).meta.chunk_id, u64::MAX - 1);
    assert_eq!(corpus.upcoming(), u64::MAX);
}

#[test]
fn manifest_reads_back() {
    let manifest = Manifest {
        repo_id: 7,
        model_id: b"mini".to_vec(),
        documents: vec![
            ManifestEntry { path: b"a.rs".to_vec(), content_hash: 0x0102030405060708 },
            ManifestEntry { path: Vec::new(), content_hash: u64::MAX },
        ],
    };
    let bytes = manifest.encode();
    assert_eq!(bytes.len(), 8 + (8 + 4) + 8 + (8 + 4 + 8) + (8 + 8) + 8);
    assert_eq!(&bytes[..8], &[7, 0, 0, 0, 0, 0, 0, 0]);
    assert_eq!(&bytes[8..20], &[4, 0, 0, 0, 0, 0, 0, 0, b'm', b'i', b'n', b'i']);
    assert_eq!(&bytes[40..48], &[8, 7, 6, 5, 4, 3, 2, 1]);
    assert_eq!(&bytes[bytes.len() - 8..], &hash_bytes(&bytes[..bytes.len() - 8]).to_le_bytes());
    let back = Manifest::decode(&bytes).unwrap();
    assert_eq!(back.repo_id, 7);
    assert_eq!(back.model_id, b"mini".to_vec());
    assert_eq!(back.documents.len(), 2);
    assert_eq!(back.documents[0].path, b"a.rs".to_vec());
    assert_eq!(back.documents[1].content_hash, u64::MAX);
    let empty = Manifest { repo_id: 0, model_id: Vec::new(), documents: Vec::new() };
    assert!(Manifest::decode(&empty.encode()).is_some());
}

#[test]
fn damaged_manifest_does_not_read() {
    let manifest = Manifest {
        repo_id: 7,
        model_id: b"mini".to_vec(),
        documents: vec![ManifestEntry { path: b"a.rs".to_vec(), content_hash: 1 }],
    };
    let bytes = manifest.encode();
    for i in 0..bytes.len() {
        let mut flipped = bytes.clone();
        flipped[i] ^= 0x40;
        assert!(Manifest::decode(&flipped).is_none());
    }
    assert!(Manifest::decode(&bytes[..bytes.len() - 1]).is_none());
    assert!(Manifest::decode(&[]).is_none());
    assert!(Manifest::decode(&[0; 7]).is_none());
    let mut longer = bytes[..bytes.len() - 8].to_vec();
    longer.push(0);
    let sum = hash_bytes(&longer);
    longer.extend_from_slice(&sum.to_le_bytes());
    assert!(Manifest::decode(&longer).is_none());
    let mut short_count = manifest.encode();
    short_count.truncate(short_count.len() - 8);
    short_count[20] = 2;
    let sum = hash_bytes(&short_count);
    short_count.extend_from_slice(&sum.to_le_bytes());
    assert!(Manifest::decode(&short_count).is_none());
}

#[test]
fn manifest_lists_the_documents_of_one_repository() {
    let corpus = Corpus::restore(
        vec![document(1, "a.rs", "fn a", 1), document(2, "x.rs", "fn x", 2), document(1, "b.rs", "fn b", 3)],
        vec![entry(1, 1, "a.rs", "fn a"), entry(2, 2, "x.rs", "fn x"), entry(3, 1, "b.rs", "fn b")],
        Vec::new(),
        4,
    )
    .unwrap();
    let manifest = corpus.manifest(1, b"m".to_vec());
    let listed: Vec<(Vec<u8>, u64)> =
        manifest.documents.iter().map(|d| (d.path.clone(), d.content_hash)).collect();
    assert_eq!(
        listed,
        vec![(b"a.rs".to_vec(), hash_bytes(b"fn a")), (b"b.rs".to_vec(), hash_bytes(b"fn b"))]
    );
    assert_eq!(manifest.repo_id, 1);
}

#[test]
fn writers_to_one_repository_take_turns() {
    let mut locks = WriteLocks::new();
    assert!(locks.try_lock(1));
    assert!(!locks.try_lock(1));
    assert!(locks.try_lock(2));
    assert!(locks.is_held(1));
    locks.unlock(1);
    assert!(!locks.is_held(1));
    assert!(locks.is_held(2));
    assert!(locks.try_lock(1));
    locks.unlock(3);
    assert!(locks.is_held(1) && locks.is_held(2));
}

#[test]
fn pause_doubles_up_to_the_cap() {
    let pauses: Vec<u64> = (0..6).map(|n| backoff(n, 100, 1000)).collect();
    assert_eq!(pauses, vec![100, 200, 400, 800, 1000, 1000]);
    assert_eq!(backoff(0, 5000, 1000), 1000);
    assert_eq!(backoff(70, 1, u64::MAX), u64::MAX);
    assert_eq!(backoff(3, 0, 10), 0);
}

#[test]
fn conflict_is_reported_when_attempts_run_out() {
    assert_eq!(retry(0, 3), Some(1));
    assert_eq!(retry(1, 3), Some(2));
    assert_eq!(retry(2, 3), None);
    assert_eq!(retry(0, 0), None);
    assert_eq!(retry(u32::MAX, u32::MAX), None);
}
