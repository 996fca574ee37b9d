use knowledge_index::engine::chunker::{chunk, ChunkConfig};
use knowledge_index::engine::markdown::parse_markdown;
use knowledge_index::engine::model::FileKind;
use knowledge_index::engine::text::{bytes_lt, hash_bytes, lex_text, tokenize, LexKind};

fn texts(chunks: &[knowledge_index::engine::model::Chunk]) -> Vec<String> {
    chunks.iter().map(|c| String::from_utf8(c.text.clone()).unwrap()).collect()
}

#[test]
fn tokens_are_folded_words() {
    let toks = tokenize(b"Hello, World_1 foo-bar");
    assert_eq!(toks, vec![b"hello".to_vec(), b"world_1".to_vec(), b"foo".to_vec(), b"bar".to_vec()]);
}

#[test]
fn tokens_keep_multibyte_words_whole() {
    let toks = tokenize("na\u{ef}ve caf\u{e9}".as_bytes());
    assert_eq!(toks, vec!["na\u{ef}ve".as_bytes().to_vec(), "caf\u{e9}".as_bytes().to_vec()]);
}

#[test]
fn lexer_marks_quotes_and_trailing_stars() {
    let lx = lex_text(b"fo* \"a b\" * c");
    let kinds: Vec<LexKind> = lx.iter().map(|l| l.kind).collect();
    assert_eq!(
        kinds,
        vec![
            LexKind::Word,
            LexKind::Star,
            LexKind::Quote,
            LexKind::Word,
            LexKind::Word,
            LexKind::Quote,
            LexKind::Word,
        ]
    );
    assert_eq!(lx[0].word, b"fo".to_vec());
}

#[test]
fn content_hash_is_fnv1a() {
    assert_eq!(hash_bytes(b""), 0xcbf29ce484222325);
    assert_eq!(hash_bytes(b"a"), 0xaf63dc4c8601ec8c);
    assert_eq!(hash_bytes(b"foobar"), 0x85944171f73967e8);
}

#[test]
fn byte_strings_order_lexicographically() {
    assert!(bytes_lt(b"a.py", b"b.md"));
    assert!(bytes_lt(b"a", b"a.py"));
    assert!(!bytes_lt(b"a.py", b"a.py"));
    assert!(!bytes_lt(b"b", b"a.py"));
}

#[test]
fn empty_document_has_one_empty_chunk() {
    let chunks = chunk(b"", FileKind::Code, &ChunkConfig::standard());
    assert_eq!(chunks.len(), 1);
    assert!(chunks[0].text.is_empty());
    assert_eq!(chunks[0].ordinal, 0);
}

#[test]
fn oversized_single_line_is_one_truncated_chunk() {
    let cfg = ChunkConfig::new(10, 40, 5).unwrap();
    let text = vec![b'x'; 50];
    let chunks = chunk(&text, FileKind::Config, &cfg);
    assert_eq!(chunks.len(), 1);
    assert_eq!(chunks[0].text, vec![b'x'; 10]);
    assert_eq!((chunks[0].start, chunks[0].end), (0, 10));
}

#[test]
fn every_chunk_is_within_the_size_limit() {
    let cfg = ChunkConfig::new(16, 4, 1).unwrap();
    let mut text = Vec::new();
    for i in 0..200 {
        text.extend_from_slice(format!("line number {} of the file\n", i).as_bytes());
    }
    for kind in [FileKind::Code, FileKind::Markdown, FileKind::Config] {
        let chunks = chunk(&text, kind, &cfg);
        assert!(!chunks.is_empty());
        for (i, c) in chunks.iter().enumerate() {
            assert!(c.text.len() <= 16);
            assert_eq!(c.ordinal, i);
            assert_eq!(c.text, text[c.start..c.end].to_vec());
        }
    }
}

#[test]
fn line_windows_overlap() {
    let cfg = ChunkConfig::new(1000, 3, 1).unwrap();
    let chunks = chunk(b"l0\nl1\nl2\nl3\nl4\nl5\n", FileKind::Config, &cfg);
    assert_eq!(texts(&chunks), vec!["l0\nl1\nl2\n", "l2\nl3\nl4\n", "l4\nl5\n"]);
    assert_eq!(chunks[1].start, 6);
    assert_eq!(chunks[2].ordinal, 2);
}

#[test]
fn size_limit_ends_a_window() {
    let cfg = ChunkConfig::new(10, 40, 0).unwrap();
    let chunks = chunk(b"aaaa\nbbbb\ncccc\n", FileKind::Config, &cfg);
    assert_eq!(texts(&chunks), vec!["aaaa\nbbbb\n", "cccc\n"]);
}

#[test]
fn code_is_cut_at_definitions() {
    let text = b"import x\n\ndef a():\n  pass\ndef b():\n  pass\n";
    let chunks = chunk(text, FileKind::Code, &ChunkConfig::standard());
    assert_eq!(
        texts(&chunks),
        vec!["import x\n\n", "def a():\n  pass\n", "def b():\n  pass\n"]
    );
    assert!(chunks.iter().all(|c| c.structural_path.is_empty()));
}

#[test]
fn markdown_chunks_carry_breadcrumbs() {
    let text = b"# A\nintro\n## B\ntext\n### C\ndeep\n## D\nend\n";
    let chunks = chunk(text, FileKind::Markdown, &ChunkConfig::standard());
    let paths: Vec<String> =
        chunks.iter().map(|c| String::from_utf8(c.structural_path.clone()).unwrap()).collect();
    assert_eq!(paths, vec!["A", "A > B", "A > B > C", "A > D"]);
    assert_eq!(texts(&chunks)[1], "## B\ntext\n");
}

#[test]
fn headings_are_read_with_level_and_title() {
    let meta = parse_markdown(b"# One\r\ntext\n####### seven\n#nospace\n### Three  \n");
    let seen: Vec<(u8, String, usize)> = meta
        .headings
        .iter()
        .map(|h| (h.level, String::from_utf8(h.title.clone()).unwrap(), h.offset))
        .collect();
    assert_eq!(seen, vec![(1, "One".to_string(), 0), (3, "Three  ".to_string(), 35)]);
}

#[test]
fn unsound_chunk_configurations_are_refused() {
    assert!(ChunkConfig::new(0, 10, 1).is_none());
    assert!(ChunkConfig::new(10, 0, 0).is_none());
    assert!(ChunkConfig::new(10, 3, 3).is_none());
    assert!(ChunkConfig::new(1, 1, 0).is_some());
}
