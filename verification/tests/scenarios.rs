use knowledge_index::engine::chunker::ChunkConfig;
use knowledge_index::engine::embedder::ChunkEmbedding;
use knowledge_index::engine::indexer::{FileEntry, IndexError, Indexer};
use knowledge_index::engine::model::{FileKind, Filters};
use knowledge_index::engine::query::QueryError;
use knowledge_index::engine::searcher::{
    group_by_repo, QueryVector, Score, SearchMode, SearchRequest, SearchResult, Searcher,
};
use knowledge_index::engine::watcher::{ChangeType, IndexWatcher};
use knowledge_index::tui::app::{App, AppMode, StatusLevel};
use knowledge_index::tui::layout::Area;
use knowledge_index::tui::views::search::{render, Pane};

fn file(path: &str, kind: FileKind, content: &str) -> FileEntry {
    FileEntry { path: path.as_bytes().to_vec(), kind, content: content.as_bytes().to_vec(), mtime: 1 }
}

fn two_files() -> Vec<FileEntry> {
    vec![
        file("a.py", FileKind::Code, "def foo(): pass"),
        file("b.md", FileKind::Markdown, "# Title\nsome text"),
    ]
}

fn request(query: &str, mode: SearchMode) -> SearchRequest {
    SearchRequest {
        query: query.as_bytes().to_vec(),
        mode,
        filters: Filters::none(),
        limit: 20,
        group_by_repo: false,
    }
}

fn lexical(indexer: &Indexer, query: &str) -> Vec<SearchResult> {
    indexer.search(&Searcher::new(), &request(query, SearchMode::Lexical), None).unwrap().results
}

fn chunk_ids(indexer: &Indexer) -> Vec<u64> {
    let index = indexer.corpus().lexical();
    (0..index.len()).map(|i| index.entry(i).meta.chunk_id).collect()
}

#[test]
fn two_file_repository_is_searchable() {
    let mut indexer = Indexer::new(ChunkConfig::standard());
    let report = indexer.index(b"/repo", None, two_files(), 10).unwrap();
    assert_eq!(report.sync.changed, 2);
    assert_eq!(report.sync.queue.len(), 2);
    let foo = lexical(&indexer, "foo");
    assert_eq!(foo.len(), 1);
    assert_eq!(foo[0].meta.path, b"a.py".to_vec());
    assert_eq!(foo[0].meta.repo_id, report.repo_id);
    let title = lexical(&indexer, "Title");
    assert_eq!(title.len(), 1);
    assert_eq!(title[0].meta.path, b"b.md".to_vec());
    assert_eq!(title[0].structural_path, b"Title".to_vec());
    assert_eq!(title[0].snippet, b"# Title\nsome text".to_vec());
}

#[test]
fn repository_is_registered_once_for_each_root_path() {
    let mut indexer = Indexer::new(ChunkConfig::standard());
    let first = indexer.index(b"/home/me/notes", None, Vec::new(), 10).unwrap().repo_id;
    let again = indexer.index(b"/home/me/notes", Some(b"other".to_vec()), Vec::new(), 20).unwrap();
    let second = indexer.index(b"/srv/code/", Some(b"code".to_vec()), Vec::new(), 30).unwrap();
    assert_eq!(again.repo_id, first);
    assert_ne!(second.repo_id, first);
    let repos = indexer.list();
    assert_eq!(repos.len(), 2);
    assert_eq!(repos[0].display_name, b"notes".to_vec());
    assert_eq!((repos[0].created_at, repos[0].last_indexed_at), (10, 20));
    assert_eq!(repos[1].display_name, b"code".to_vec());
    assert_eq!(indexer.repository_at(b"/srv/code/"), Some(second.repo_id));
    assert_eq!(indexer.repository_at(b"/nowhere"), None);
}

#[test]
fn reindexing_unchanged_files_changes_nothing() {
    let mut indexer = Indexer::new(ChunkConfig::standard());
    let first = indexer.index(b"/repo", None, two_files(), 10).unwrap();
    let ids = chunk_ids(&indexer);
    let again = indexer.update(first.repo_id, two_files(), 20).unwrap();
    assert_eq!(again.changed, 0);
    assert_eq!(again.removed, 0);
    assert!(again.queue.is_empty());
    assert_eq!(chunk_ids(&indexer), ids);
    assert_eq!(indexer.list()[0].last_indexed_at, 20);
}

#[test]
fn changed_file_gets_new_chunk_ids_and_others_keep_theirs() {
    let mut indexer = Indexer::new(ChunkConfig::standard());
    let first = indexer.index(b"/repo", None, two_files(), 10).unwrap();
    let before = chunk_ids(&indexer);
    let files = vec![
        file("a.py", FileKind::Code, "def bar(): pass"),
        file("b.md", FileKind::Markdown, "# Title\nsome text"),
    ];
    let report = indexer.update(first.repo_id, files, 20).unwrap();
    assert_eq!(report.changed, 1);
    assert_eq!(report.queue.len(), 1);
    let after = chunk_ids(&indexer);
    assert_eq!(after.len(), 2);
    assert!(after.contains(&before[1]));
    assert!(!after.contains(&before[0]));
    assert_eq!(report.queue[0].chunk_id, *after.iter().max().unwrap());
    assert!(lexical(&indexer, "foo").is_empty());
    assert_eq!(lexical(&indexer, "bar").len(), 1);
}

#[test]
fn vanished_file_leaves_the_index_on_update() {
    let mut indexer = Indexer::new(ChunkConfig::standard());
    let first = indexer.index(b"/repo", None, two_files(), 10).unwrap();
    let only_b = vec![file("b.md", FileKind::Markdown, "# Title\nsome text")];
    let report = indexer.update(first.repo_id, only_b, 20).unwrap();
    assert_eq!((report.changed, report.removed), (0, 1));
    assert!(lexical(&indexer, "foo").is_empty());
    assert_eq!(indexer.corpus().documents().len(), 1);
}

#[test]
fn removed_repository_is_gone() {
    let mut indexer = Indexer::new(ChunkConfig::standard());
    let kept = indexer.index(b"/keep", None, vec![file("k.py", FileKind::Code, "def foo(): 1")], 1);
    let gone = indexer.index(b"/gone", None, two_files(), 2).unwrap().repo_id;
    let e = ChunkEmbedding { chunk_id: chunk_ids(&indexer)[1], model_id: b"m".to_vec(), vector: vec![1, 0] };
    assert_eq!(indexer.store_embeddings(gone, 0, vec![e]), Ok(1));
    assert_eq!(indexer.remove(b"/gone", false), Ok(false));
    assert_eq!(indexer.list().len(), 2);
    assert_eq!(lexical(&indexer, "foo").len(), 2);
    assert_eq!(indexer.remove(b"/gone", true), Ok(true));
    assert_eq!(indexer.list().len(), 1);
    assert_eq!(indexer.corpus().documents().len(), 1);
    assert_eq!(indexer.corpus().vectors().len(), 0);
    assert_eq!(lexical(&indexer, "foo").len(), 1);
    let mut filtered = request("foo", SearchMode::Lexical);
    filtered.filters = Filters { repo_id: Some(gone), kind: None };
    let outcome = indexer.search(&Searcher::new(), &filtered, None).unwrap();
    assert!(outcome.results.is_empty());
    assert_eq!(indexer.remove(b"/gone", true), Err(IndexError::UnknownRepository));
    assert!(kept.is_ok());
}

#[test]
fn unknown_repository_is_refused() {
    let mut indexer = Indexer::new(ChunkConfig::standard());
    assert_eq!(indexer.update(5, Vec::new(), 1).err(), Some(IndexError::UnknownRepository));
    assert_eq!(indexer.store_embeddings(5, 0, Vec::new()), Err(IndexError::UnknownRepository));
}

#[test]
fn deleted_file_leaves_the_index_after_the_debounce_time() {
    let mut indexer = Indexer::new(ChunkConfig::standard());
    let repo = indexer.index(b"/repo", None, two_files(), 10).unwrap().repo_id;
    let mut watcher = IndexWatcher::new(repo, 300, 1000);
    watcher.on_event(b"a.py", ChangeType::Deleted, 1000);
    assert!(watcher.tick(1299).is_none());
    assert_eq!(lexical(&indexer, "foo").len(), 1);
    let batch = watcher.tick(1300).unwrap();
    let report = indexer.apply(&batch, Vec::new(), 1300).unwrap();
    watcher.acknowledge();
    assert_eq!(report.removed, 1);
    assert!(lexical(&indexer, "foo").is_empty());
    assert_eq!(lexical(&indexer, "title").len(), 1);
}

#[test]
fn modified_file_is_reindexed_once_for_a_burst_of_edits() {
    let mut indexer = Indexer::new(ChunkConfig::standard());
    let repo = indexer.index(b"/repo", None, two_files(), 10).unwrap().repo_id;
    let mut watcher = IndexWatcher::new(repo, 300, 1000);
    for t in 0..10u64 {
        watcher.on_event(b"a.py", ChangeType::Modified, 1000 + t);
    }
    let batch = watcher.tick(2000).unwrap();
    assert_eq!(batch.changes.len(), 1);
    let files = vec![file("a.py", FileKind::Code, "def qux(): pass")];
    let report = indexer.apply(&batch, files, 2000).unwrap();
    assert_eq!(report.changed, 1);
    assert_eq!(lexical(&indexer, "qux").len(), 1);
    assert!(lexical(&indexer, "foo").is_empty());
}

#[test]
fn full_rescan_batch_brings_the_repository_in_step() {
    let mut indexer = Indexer::new(ChunkConfig::standard());
    let repo = indexer.index(b"/repo", None, two_files(), 10).unwrap().repo_id;
    let mut watcher = IndexWatcher::new(repo, 300, 1000);
    watcher.on_gap(50);
    let batch = watcher.tick(350).unwrap();
    let now_there = vec![file("c.py", FileKind::Code, "def fresh(): pass")];
    let report = indexer.apply(&batch, now_there, 350).unwrap();
    assert_eq!((report.changed, report.removed), (1, 2));
    assert!(lexical(&indexer, "foo").is_empty());
    assert_eq!(lexical(&indexer, "fresh").len(), 1);
}

#[test]
fn semantic_search_returns_only_vectors_of_the_new_model() {
    let mut indexer = Indexer::new(ChunkConfig::standard());
    let repo = indexer.index(b"/repo", None, two_files(), 10).unwrap().repo_id;
    let ids = chunk_ids(&indexer);
    let old: Vec<ChunkEmbedding> = ids
        .iter()
        .map(|id| ChunkEmbedding { chunk_id: *id, model_id: b"old".to_vec(), vector: vec![1, 1, 1] })
        .collect();
    assert_eq!(indexer.store_embeddings(repo, 0, old), Ok(2));
    let jobs = indexer.rebuild_embeddings(None);
    assert_eq!(jobs.len(), 1);
    assert_eq!((jobs[0].repo_id, jobs[0].generation), (repo, 1));
    assert_eq!(jobs[0].chunks.len(), 2);
    assert_eq!(jobs[0].chunks[0].text, b"def foo(): pass".to_vec());
    let fresh = vec![ChunkEmbedding { chunk_id: ids[0], model_id: b"new".to_vec(), vector: vec![3, 4] }];
    assert_eq!(indexer.store_embeddings(repo, 1, fresh), Ok(1));
    let vector = QueryVector { model_id: b"new".to_vec(), vector: vec![3, 4] };
    let outcome = indexer
        .search(&Searcher::new(), &request("anything", SearchMode::Semantic), Some(&vector))
        .unwrap();
    assert!(!outcome.degraded);
    assert_eq!(outcome.results.len(), 1);
    assert_eq!(outcome.results[0].meta.chunk_id, ids[0]);
    assert_eq!(indexer.corpus().vectors().len(), 2);
    for i in 0..indexer.corpus().vectors().len() {
        let stored = indexer.corpus().vectors().stored(i);
        if stored.meta.chunk_id == outcome.results[0].meta.chunk_id {
            assert_eq!(stored.model_id, b"new".to_vec());
        }
    }
    match outcome.results[0].score {
        Score::Cosine { dot, norm_sq, query_norm_sq } => {
            assert_eq!((dot, norm_sq, query_norm_sq), (25, 25, 25))
        }
        _ => panic!("a semantic result carries a cosine score"),
    }
}

#[test]
fn vectors_of_a_superseded_rebuild_are_dropped() {
    let mut indexer = Indexer::new(ChunkConfig::standard());
    let repo = indexer.index(b"/repo", None, two_files(), 10).unwrap().repo_id;
    let ids = chunk_ids(&indexer);
    let first = indexer.rebuild_embeddings(Some(repo));
    let second = indexer.rebuild_embeddings(Some(repo));
    assert_eq!((first[0].generation, second[0].generation), (1, 2));
    let late = vec![ChunkEmbedding { chunk_id: ids[0], model_id: b"m".to_vec(), vector: vec![1] }];
    assert_eq!(indexer.store_embeddings(repo, 1, late), Ok(0));
    assert_eq!(indexer.corpus().vectors().len(), 0);
    let current = vec![
        ChunkEmbedding { chunk_id: ids[0], model_id: b"m".to_vec(), vector: vec![1] },
        ChunkEmbedding { chunk_id: 999, model_id: b"m".to_vec(), vector: vec![1] },
    ];
    assert_eq!(indexer.store_embeddings(repo, 2, current), Ok(1));
    assert!(indexer.rebuild_embeddings(Some(repo + 1)).is_empty());
}

#[test]
fn search_without_query_vector_degrades_to_lexical() {
    let mut indexer = Indexer::new(ChunkConfig::standard());
    indexer.index(b"/repo", None, two_files(), 10).unwrap();
    let searcher = Searcher::new();
    for mode in [SearchMode::Semantic, SearchMode::Hybrid] {
        let outcome = indexer.search(&searcher, &request("foo", mode), None).unwrap();
        assert!(outcome.degraded);
        assert_eq!(outcome.results.len(), 1);
    }
    let plain = indexer.search(&searcher, &request("foo", SearchMode::Lexical), None).unwrap();
    assert!(!plain.degraded);
    assert_eq!(
        indexer.search(&searcher, &request("\"foo", SearchMode::Hybrid), None).err(),
        Some(QueryError::UnbalancedQuote)
    );
}

#[test]
fn hybrid_search_fuses_both_rankings() {
    let mut indexer = Indexer::new(ChunkConfig::standard());
    let files = vec![
        file("a.py", FileKind::Code, "def foo(): pass"),
        file("b.py", FileKind::Code, "def foo(): foo"),
        file("c.py", FileKind::Code, "def other(): pass"),
    ];
    let repo = indexer.index(b"/repo", None, files, 10).unwrap().repo_id;
    let ids = chunk_ids(&indexer);
    let vectors = vec![
        ChunkEmbedding { chunk_id: ids[0], model_id: b"m".to_vec(), vector: vec![0, 5] },
        ChunkEmbedding { chunk_id: ids[1], model_id: b"m".to_vec(), vector: vec![1, 1] },
        ChunkEmbedding { chunk_id: ids[2], model_id: b"m".to_vec(), vector: vec![9, 0] },
    ];
    assert_eq!(indexer.store_embeddings(repo, 0, vectors), Ok(3));
    let vector = QueryVector { model_id: b"m".to_vec(), vector: vec![1, 0] };
    let outcome = indexer
        .search(&Searcher::new(), &request("foo", SearchMode::Hybrid), Some(&vector))
        .unwrap();
    let seen: Vec<Vec<u8>> = outcome.results.iter().map(|r| r.meta.path.clone()).collect();
    assert_eq!(seen, vec![b"b.py".to_vec(), b"a.py".to_vec(), b"c.py".to_vec()]);
    match outcome.results[0].score {
        Score::Fused { num, den } => assert_eq!((num, den), (61 + 62, 61 * 62)),
        _ => panic!("a hybrid result carries a fused score"),
    }
    match outcome.results[2].score {
        Score::Fused { num, den } => assert_eq!((num, den), (1, 61)),
        _ => panic!("a hybrid result carries a fused score"),
    }
    assert_eq!(outcome.results[2].snippet, b"def other(): pass".to_vec());
}

#[test]
fn limit_applies_after_grouping() {
    let mut indexer = Indexer::new(ChunkConfig::standard());
    indexer.index(b"/one", None, vec![file("a.py", FileKind::Code, "foo foo foo")], 1).unwrap();
    indexer.index(b"/two", None, vec![file("b.py", FileKind::Code, "foo foo bar")], 2).unwrap();
    indexer.index(b"/one", None, vec![
        file("a.py", FileKind::Code, "foo foo foo"),
        file("c.py", FileKind::Code, "foo bar bar"),
    ], 3).unwrap();
    let mut req = request("foo", SearchMode::Lexical);
    let flat: Vec<Vec<u8>> = indexer
        .search(&Searcher::new(), &req, None)
        .unwrap()
        .results
        .iter()
        .map(|r| r.meta.path.clone())
        .collect();
    assert_eq!(flat, vec![b"a.py".to_vec(), b"b.py".to_vec(), b"c.py".to_vec()]);
    req.group_by_repo = true;
    req.limit = 2;
    let grouped: Vec<Vec<u8>> = indexer
        .search(&Searcher::new(), &req, None)
        .unwrap()
        .results
        .iter()
        .map(|r| r.meta.path.clone())
        .collect();
    assert_eq!(grouped, vec![b"a.py".to_vec(), b"c.py".to_vec()]);
}

#[test]
fn grouping_keeps_rank_order_within_a_repository() {
    let result = |chunk_id: u64, repo_id: u64| SearchResult {
        meta: knowledge_index::engine::model::Meta {
            chunk_id,
            repo_id,
            kind: FileKind::Code,
            length: 1,
            path: Vec::new(),
        },
        score: Score::Lexical(0),
        snippet: Vec::new(),
        structural_path: Vec::new(),
    };
    let ranked = vec![result(1, 20), result(2, 10), result(3, 20), result(4, 30), result(5, 10)];
    let ids: Vec<u64> = group_by_repo(ranked).iter().map(|r| r.meta.chunk_id).collect();
    assert_eq!(ids, vec![1, 3, 2, 5, 4]);
}

fn searched(indexer: &Indexer, query: &str) -> App {
    let mut app = App {
        mode: AppMode::Search,
        status_message: None,
        search_input: query.to_string(),
        search_results: Vec::new(),
        search_selected: 3,
        first_run: false,
    };
    let outcome = indexer.search(&Searcher::new(), &app.request(), None);
    app.show(outcome, indexer.list());
    app
}

fn headings(pane: &Pane) -> Vec<String> {
    match pane {
        Pane::Results { items, .. } => items
            .iter()
            .map(|item| item.heading.iter().map(|p| p.text.as_str()).collect())
            .collect(),
        _ => Vec::new(),
    }
}

#[test]
fn result_list_names_repository_and_file() {
    let mut indexer = Indexer::new(ChunkConfig::standard());
    indexer.index(b"/home/me/repo", None, two_files(), 10).unwrap();
    let area = Area { x: 0, y: 3, width: 80, height: 20 };
    let foo = render(&searched(&indexer, "foo"), area);
    assert_eq!(headings(&foo.pane), vec!["repo:a.py"]);
    match &foo.pane {
        Pane::Results { block, items } => {
            assert_eq!(block.title, " Results (1) ");
            assert_eq!(items[0].snippet, "def foo(): pass");
            assert!(items[0].selected);
        }
        _ => panic!("the result is listed"),
    }
    let title = render(&searched(&indexer, "Title"), area);
    assert_eq!(headings(&title.pane), vec!["repo:b.md"]);
    assert_eq!(title.input, "› Title");
}

#[test]
fn deleted_file_leaves_the_result_list() {
    let mut indexer = Indexer::new(ChunkConfig::standard());
    let repo = indexer.index(b"/home/me/repo", None, two_files(), 10).unwrap().repo_id;
    let mut watcher = IndexWatcher::new(repo, 300, 1000);
    watcher.on_event(b"a.py", ChangeType::Deleted, 1000);
    let batch = watcher.tick(1300).unwrap();
    indexer.apply(&batch, Vec::new(), 1300).unwrap();
    watcher.acknowledge();
    let view = render(&searched(&indexer, "foo"), Area { x: 0, y: 0, width: 2, height: 9 });
    match view.pane {
        Pane::Text { lines, .. } => {
            assert_eq!(lines.len(), 7);
            assert_eq!(lines[1].pieces[0].text, "No results for \"foo\"");
        }
        _ => panic!("nothing is left to list"),
    }
}

#[test]
fn rows_are_made_from_search_results() {
    let mut indexer = Indexer::new(ChunkConfig::standard());
    indexer.index(b"/home/me/repo", Some("caf\u{e9}".as_bytes().to_vec()), two_files(), 10).unwrap();
    let odd = FileEntry {
        path: vec![b'n', 0xff, b'.', b'p', b'y'],
        kind: FileKind::Code,
        content: b"def foo(): 2".to_vec(),
        mtime: 1,
    };
    indexer.index(b"/x", Some(vec![b'b', 0xff, b'd']), vec![odd], 11).unwrap();
    let app = searched(&indexer, "foo");
    assert_eq!(app.search_selected, 0);
    assert!(app.status_message.is_none());
    let seen: Vec<(&str, &str, &str)> = app
        .search_results
        .iter()
        .map(|r| (r.repo_name.as_str(), r.file_path.as_str(), r.snippet.as_str()))
        .collect();
    assert_eq!(
        seen,
        vec![
            ("b\u{fffd}d", "n\u{fffd}.py", "def foo(): 2"),
            ("caf\u{e9}", "a.py", "def foo(): pass"),
        ]
    );
    let bad = searched(&indexer, "\"foo");
    assert!(bad.search_results.is_empty());
    assert_eq!(bad.status_message, Some(("Unbalanced quotes".to_string(), StatusLevel::Warning)));
}
