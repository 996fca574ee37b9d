use knowledge_index::engine::lexical::LexicalIndex;
use knowledge_index::engine::model::{Chunk, FileKind, Filters, Meta};
use knowledge_index::engine::query::{parse_query, ClauseKind, QueryError};
use knowledge_index::engine::score::score_clause;
use knowledge_index::engine::searcher::{find_rank, fuse, SearchMode};

fn one_chunk(text: &str) -> Vec<Chunk> {
    vec![Chunk {
        ordinal: 0,
        start: 0,
        end: text.len(),
        text: text.as_bytes().to_vec(),
        structural_path: Vec::new(),
    }]
}

fn meta(chunk_id: u64, length: usize, path: &str) -> Meta {
    Meta { chunk_id, repo_id: 1, kind: FileKind::Code, length, path: path.as_bytes().to_vec() }
}

#[test]
fn query_has_terms_phrases_and_prefixes() {
    let q = parse_query(b"Foo \"bar  Baz\" qu* \"\"").unwrap();
    let seen: Vec<(ClauseKind, Vec<Vec<u8>>)> =
        q.clauses.iter().map(|c| (c.kind, c.words.clone())).collect();
    assert_eq!(
        seen,
        vec![
            (ClauseKind::Term, vec![b"foo".to_vec()]),
            (ClauseKind::Phrase, vec![b"bar".to_vec(), b"baz".to_vec()]),
            (ClauseKind::Prefix, vec![b"qu".to_vec()]),
        ]
    );
}

#[test]
fn open_quote_is_a_parse_error() {
    assert_eq!(parse_query(b"foo \"bar").err(), Some(QueryError::UnbalancedQuote));
    assert!(parse_query(b"\"a\" \"b\"").is_ok());
}

#[test]
fn clause_score_follows_the_formula() {
    assert_eq!(score_clause(1, 3, 1, 3, 1), 1000);
    assert_eq!(score_clause(2, 4, 2, 10, 1), 2912);
    assert_eq!(score_clause(0, 4, 2, 10, 1), 0);
    assert_eq!(score_clause(1, 4, 2, 10, 0), 0);
}

#[test]
fn terms_are_combined_with_and() {
    let mut index = LexicalIndex::new();
    index.upsert(1, FileKind::Code, b"a.rs", 1, one_chunk("alpha beta gamma"));
    index.upsert(1, FileKind::Code, b"b.rs", 2, one_chunk("alpha delta"));
    let both = index.query(b"alpha", &Filters::none(), 10).unwrap();
    assert_eq!(both.len(), 2);
    let one = index.query(b"alpha beta", &Filters::none(), 10).unwrap();
    assert_eq!(one.len(), 1);
    assert_eq!(one[0].meta.path, b"a.rs".to_vec());
    assert!(index.query(b"alpha omega", &Filters::none(), 10).unwrap().is_empty());
    assert!(index.query(b"", &Filters::none(), 10).unwrap().is_empty());
}

#[test]
fn phrases_need_adjacent_words_and_prefixes_match_word_starts() {
    let mut index = LexicalIndex::new();
    index.upsert(1, FileKind::Code, b"a.rs", 1, one_chunk("async fn main"));
    index.upsert(1, FileKind::Code, b"b.rs", 2, one_chunk("fn helper is async"));
    let phrase = index.query(b"\"async fn\"", &Filters::none(), 10).unwrap();
    assert_eq!(phrase.len(), 1);
    assert_eq!(phrase[0].meta.chunk_id, 1);
    let prefix = index.query(b"hel*", &Filters::none(), 10).unwrap();
    assert_eq!(prefix.len(), 1);
    assert_eq!(prefix[0].meta.chunk_id, 2);
    assert!(index.query(b"hel", &Filters::none(), 10).unwrap().is_empty());
}

#[test]
fn malformed_query_leaves_the_index_alone() {
    let mut index = LexicalIndex::new();
    index.upsert(1, FileKind::Code, b"a.rs", 1, one_chunk("alpha"));
    assert_eq!(
        index.query(b"\"alpha", &Filters::none(), 10).err(),
        Some(QueryError::UnbalancedQuote)
    );
    assert_eq!(index.len(), 1);
}

#[test]
fn higher_score_ranks_first_and_ties_go_to_the_shorter_chunk() {
    let mut index = LexicalIndex::new();
    index.upsert(1, FileKind::Code, b"z.rs", 1, one_chunk("foo bar"));
    index.upsert(1, FileKind::Code, b"a.rs", 2, one_chunk("foo foo bar"));
    index.upsert(1, FileKind::Code, b"m.rs", 3, one_chunk("foo baz"));
    let hits = index.query(b"foo", &Filters::none(), 10).unwrap();
    let ids: Vec<u64> = hits.iter().map(|h| h.meta.chunk_id).collect();
    assert_eq!(ids, vec![2, 3, 1]);
    assert!(hits[0].score > hits[1].score);
    assert_eq!(hits[1].score, hits[2].score);
    let limited = index.query(b"foo", &Filters::none(), 2).unwrap();
    assert_eq!(limited.len(), 2);
    assert_eq!(limited[1].meta.chunk_id, 3);
}

#[test]
fn lexical_score_is_the_sum_over_clauses() {
    let mut index = LexicalIndex::new();
    index.upsert(1, FileKind::Code, b"a.rs", 1, one_chunk("foo bar baz"));
    let hits = index.query(b"foo bar", &Filters::none(), 10).unwrap();
    assert_eq!(hits[0].score, 2000);
}

#[test]
fn filters_narrow_by_repository_and_kind() {
    let mut index = LexicalIndex::new();
    index.upsert(1, FileKind::Code, b"a.rs", 1, one_chunk("needle"));
    index.upsert(2, FileKind::Markdown, b"b.md", 2, one_chunk("needle"));
    let by_repo = Filters { repo_id: Some(2), kind: None };
    let by_kind = Filters { repo_id: None, kind: Some(FileKind::Code) };
    let neither = Filters { repo_id: Some(1), kind: Some(FileKind::Markdown) };
    assert_eq!(index.query(b"needle", &by_repo, 10).unwrap()[0].meta.chunk_id, 2);
    assert_eq!(index.query(b"needle", &by_kind, 10).unwrap()[0].meta.chunk_id, 1);
    assert!(index.query(b"needle", &neither, 10).unwrap().is_empty());
}

#[test]
fn upsert_replaces_the_chunks_of_a_document() {
    let mut index = LexicalIndex::new();
    index.upsert(1, FileKind::Code, b"a.rs", 1, one_chunk("old words"));
    index.upsert(1, FileKind::Code, b"a.rs", 5, one_chunk("new words"));
    assert_eq!(index.len(), 1);
    assert!(index.query(b"old", &Filters::none(), 10).unwrap().is_empty());
    assert_eq!(index.query(b"new", &Filters::none(), 10).unwrap()[0].meta.chunk_id, 5);
}

#[test]
fn verbatim_chunk_text_finds_the_chunk() {
    let texts = ["fn parse(input: &str) -> Result<Ast>", "say \"hello world\" twice", "wild* card"];
    let mut index = LexicalIndex::new();
    for (i, t) in texts.iter().enumerate() {
        index.upsert(1, FileKind::Code, format!("f{}.rs", i).as_bytes(), i as u64 + 1, one_chunk(t));
    }
    for (i, t) in texts.iter().enumerate() {
        let hits = index.query(t.as_bytes(), &Filters::none(), 10).unwrap();
        assert!(hits.iter().any(|h| h.meta.chunk_id == i as u64 + 1));
    }
}

#[test]
fn snippet_is_the_start_of_the_chunk() {
    let long = "word ".repeat(100);
    let mut index = LexicalIndex::new();
    index.upsert(1, FileKind::Code, b"a.rs", 1, one_chunk(&long));
    let hits = index.query(b"word", &Filters::none(), 10).unwrap();
    assert_eq!(hits[0].snippet, long.as_bytes()[..160].to_vec());
}

#[test]
fn mode_flags_select_one_mode() {
    assert_eq!(SearchMode::from_flags(false, false, false), Some(SearchMode::Hybrid));
    assert_eq!(SearchMode::from_flags(true, false, false), Some(SearchMode::Lexical));
    assert_eq!(SearchMode::from_flags(false, true, false), Some(SearchMode::Semantic));
    assert_eq!(SearchMode::from_flags(false, false, true), Some(SearchMode::Hybrid));
    assert_eq!(SearchMode::from_flags(true, true, false), None);
    assert_eq!(SearchMode::from_flags(false, true, true), None);
    assert_eq!(SearchMode::from_flags(true, true, true), None);
}

#[test]
fn ranks_are_one_based_and_zero_when_absent() {
    assert_eq!(find_rank(&vec![7, 8, 9], 7), 1);
    assert_eq!(find_rank(&vec![7, 8, 9], 9), 3);
    assert_eq!(find_rank(&vec![7, 8, 9], 1), 0);
}

#[test]
fn fusion_follows_reciprocal_ranks() {
    let lexical = vec![meta(1, 10, "a"), meta(2, 10, "b"), meta(3, 10, "c")];
    let semantic = vec![meta(2, 10, "b"), meta(4, 10, "d"), meta(1, 10, "a")];
    let fused = fuse(lexical, semantic, 60);
    let ids: Vec<u64> = fused.iter().map(|f| f.meta.chunk_id).collect();
    assert_eq!(ids, vec![2, 1, 4, 3]);
    assert_eq!((fused[0].lexical_rank, fused[0].semantic_rank), (2, 1));
    assert_eq!((fused[0].score_num(), fused[0].score_den()), (123, 3782));
    assert_eq!((fused[2].score_num(), fused[2].score_den()), (1, 62));
    assert_eq!((fused[3].lexical_rank, fused[3].semantic_rank), (3, 0));
}

#[test]
fn fusion_is_reproducible() {
    let make = || {
        let lexical = vec![meta(5, 3, "x"), meta(6, 3, "y"), meta(7, 2, "z")];
        let semantic = vec![meta(7, 2, "z"), meta(9, 1, "w")];
        fuse(lexical, semantic, 60)
    };
    let first: Vec<(u64, u32, u32)> =
        make().iter().map(|f| (f.meta.chunk_id, f.lexical_rank, f.semantic_rank)).collect();
    let second: Vec<(u64, u32, u32)> =
        make().iter().map(|f| (f.meta.chunk_id, f.lexical_rank, f.semantic_rank)).collect();
    assert_eq!(first, second);
    assert_eq!(first, vec![(7, 3, 1), (5, 1, 0), (9, 0, 2), (6, 2, 0)]);
}

#[test]
fn equal_fused_scores_fall_to_the_tie_break() {
    let lexical = vec![meta(1, 20, "b")];
    let semantic = vec![meta(2, 10, "a")];
    let fused = fuse(lexical, semantic, 60);
    let ids: Vec<u64> = fused.iter().map(|f| f.meta.chunk_id).collect();
    assert_eq!(ids, vec![2, 1]);
}
