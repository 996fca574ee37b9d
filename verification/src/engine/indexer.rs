//! The indexer: keeps the documents of every repository, their chunks in
//! the lexical index and their vectors in the embedding store in step
//! with the files that it is shown.

use vstd::prelude::*;
use crate::engine::chunker::{ChunkConfig, chunk, chunking};
use crate::engine::consistency::{
    anchored, apart, consistent, distinct_chunks, distinct_documents, elsewhere, has_chunk,
    has_document, housed, houses, lemma_with_embedding_consistent, lemma_with_file_consistent,
    lemma_without_consistent,
};
use crate::engine::embedder::{ChunkEmbedding, ChunkEmbeddingView, TextChunk};
use crate::engine::manifest::{Manifest, ManifestEntry, ManifestView};
use crate::engine::query::QueryError;
use crate::engine::searcher::{
    QueryVector, SearchOutcome, SearchRequest, SearchResultView, Searcher, answer,
};
use crate::engine::watcher::{ChangeType, PendingChangeView, RepoBatch, RepoBatchView};
use crate::engine::lexical::{
    Entry, EntryView, LexicalIndex, all_sound as entries_sound, by_chunk, copy_bytes, entries_of,
    lemma_absent_repository_is_silent, lemma_by_chunk, search,
};
use crate::engine::query::ClauseView;
use crate::engine::registry::{
    Registry, Repository, RepositoryView, by_id, by_path, distinct, lemma_by_id, lemma_by_path,
};
use crate::engine::model::{
    ChunkView, FileKind, Filters, Located, Scope, ScopeView, drop_scope, lemma_filter_all,
    lemma_filter_holds, outside,
};
use crate::engine::text::{bytes_eq, content_hash, hash_bytes, views};
use crate::engine::vectors::{
    EmbeddingStore, StoredVector, StoredVectorView, all_sound as vectors_sound, clashes,
    each_chunk_once, lemma_nearest_sound, nearest_to, not_among, one_dimension, stored_as,
};
use crate::engine::embedder::MAX_DIMENSION;

verus! {

/// A file as the caller read it: its path below the repository's root,
/// its kind, its bytes and when it was last modified.
#[derive(Debug)]
pub struct FileEntry {
    pub path: Vec<u8>,
    pub kind: FileKind,
    pub content: Vec<u8>,
    pub mtime: u64,
}

/// A `FileEntry` as contracts see it.
pub struct FileEntryView {
    pub path: Seq<u8>,
    pub kind: FileKind,
    pub content: Seq<u8>,
    pub mtime: u64,
}

impl View for FileEntry {
    type V = FileEntryView;

    open spec fn view(&self) -> FileEntryView {
        FileEntryView {
            path: self.path@,
            kind: self.kind,
            content: self.content@,
            mtime: self.mtime,
        }
    }
}

/// An indexed file: where it lies, the hash of its content as it was
/// chunked, and the ids of its chunks, which run from `first_chunk` on.
#[derive(Debug)]
pub struct Document {
    pub repo_id: u64,
    pub path: Vec<u8>,
    pub content_hash: u64,
    pub kind: FileKind,
    pub mtime: u64,
    pub first_chunk: u64,
    pub chunk_count: usize,
}

/// A `Document` as contracts see it.
pub struct DocumentView {
    pub repo_id: u64,
    pub path: Seq<u8>,
    pub content_hash: u64,
    pub kind: FileKind,
    pub mtime: u64,
    pub first_chunk: u64,
    pub chunk_count: usize,
}

impl View for Document {
    type V = DocumentView;

    open spec fn view(&self) -> DocumentView {
        DocumentView {
            repo_id: self.repo_id,
            path: self.path@,
            content_hash: self.content_hash,
            kind: self.kind,
            mtime: self.mtime,
            first_chunk: self.first_chunk,
            chunk_count: self.chunk_count,
        }
    }
}

impl Located for Document {
    open spec fn repo_of(a: DocumentView) -> u64 {
        a.repo_id
    }

    open spec fn path_of(a: DocumentView) -> Seq<u8> {
        a.path
    }

    fn repo(&self) -> (r: u64) {
        self.repo_id
    }

    fn path(&self) -> (p: &Vec<u8>) {
        &self.path
    }
}

/// What is indexed: the documents, their chunks, the chunks' vectors and
/// the id that the next new chunk gets.
pub struct CorpusView {
    pub documents: Seq<DocumentView>,
    pub lexical: Seq<EntryView>,
    pub vectors: Seq<StoredVectorView>,
    pub next_chunk_id: u64,
}

/// Whether the document `path` of repository `repo_id` is indexed with the
/// content hash `hash`.
pub open spec fn known(docs: Seq<DocumentView>, repo_id: u64, path: Seq<u8>, hash: u64) -> bool {
    exists|i: int|
        0 <= i < docs.len() && (#[trigger] docs[i]).repo_id == repo_id && docs[i].path == path
            && docs[i].content_hash == hash
}

/// Whether a file of the path `path` is among `files`.
pub open spec fn listed(files: Seq<FileEntryView>, path: Seq<u8>) -> bool {
    exists|i: int| 0 <= i < files.len() && (#[trigger] files[i]).path == path
}

/// The texts of chunks with the ids from `first_id` on, as they go to the
/// embedding model.
pub open spec fn texts_of(first_id: u64, chunks: Seq<ChunkView>) -> Seq<(u64, Seq<u8>)> {
    Seq::new(chunks.len(), |i: int| ((first_id + i) as u64, chunks[i].text))
}

impl CorpusView {
    /// The corpus without what lies in `scope`: documents, chunks and
    /// vectors.
    pub open spec fn without(self, scope: ScopeView) -> CorpusView {
        CorpusView {
            documents: self.documents.filter(outside::<Document>(scope)),
            lexical: self.lexical.filter(outside::<Entry>(scope)),
            vectors: self.vectors.filter(outside::<StoredVector>(scope)),
            next_chunk_id: self.next_chunk_id,
        }
    }

    /// Whether showing the file `f` of repository `repo_id` changes the
    /// corpus: its content hash is not the indexed one, and there are ids
    /// left for its chunks.
    pub open spec fn takes(self, cfg: ChunkConfig, repo_id: u64, f: FileEntryView) -> bool {
        !known(self.documents, repo_id, f.path, content_hash(f.content)) && self.next_chunk_id
            + chunking(f.content, f.kind, cfg).len() <= u64::MAX
    }

    /// The corpus after the file `f` of repository `repo_id` was shown to
    /// it. A file whose content hash is the indexed one changes nothing.
    /// Else the document with its chunks and vectors is replaced: the
    /// file is chunked anew and its chunks get new ids.
    pub open spec fn with_file(self, cfg: ChunkConfig, repo_id: u64, f: FileEntryView) -> CorpusView {
        if self.takes(cfg, repo_id, f) {
            let chunks = chunking(f.content, f.kind, cfg);
            let base = self.without(ScopeView::Document(repo_id, f.path));
            CorpusView {
                documents: base.documents.push(
                    DocumentView {
                        repo_id,
                        path: f.path,
                        content_hash: content_hash(f.content),
                        kind: f.kind,
                        mtime: f.mtime,
                        first_chunk: self.next_chunk_id,
                        chunk_count: chunks.len() as usize,
                    },
                ),
                lexical: base.lexical + entries_of(
                    repo_id,
                    f.kind,
                    f.path,
                    self.next_chunk_id,
                    chunks,
                ),
                vectors: base.vectors,
                next_chunk_id: (self.next_chunk_id + chunks.len()) as u64,
            }
        } else {
            self
        }
    }

    /// The chunk texts that showing the file `f` queues for embedding.
    pub open spec fn queues(self, cfg: ChunkConfig, repo_id: u64, f: FileEntryView) -> Seq<
        (u64, Seq<u8>),
    > {
        if self.takes(cfg, repo_id, f) {
            texts_of(self.next_chunk_id, chunking(f.content, f.kind, cfg))
        } else {
            Seq::empty()
        }
    }

    /// The corpus after the first `n` of `files` were shown to it.
    pub open spec fn with_files(
        self,
        cfg: ChunkConfig,
        repo_id: u64,
        files: Seq<FileEntryView>,
        n: int,
    ) -> CorpusView
        decreases n,
    {
        if n <= 0 {
            self
        } else {
            self.with_files(cfg, repo_id, files, n - 1).with_file(cfg, repo_id, files[n - 1])
        }
    }

    /// The chunk texts that showing the first `n` of `files` queues.
    pub open spec fn queued(
        self,
        cfg: ChunkConfig,
        repo_id: u64,
        files: Seq<FileEntryView>,
        n: int,
    ) -> Seq<(u64, Seq<u8>)>
        decreases n,
    {
        if n <= 0 {
            Seq::empty()
        } else {
            self.queued(cfg, repo_id, files, n - 1) + self.with_files(
                cfg,
                repo_id,
                files,
                n - 1,
            ).queues(cfg, repo_id, files[n - 1])
        }
    }

    /// How many of the first `n` of `files` changed the corpus.
    pub open spec fn taken(
        self,
        cfg: ChunkConfig,
        repo_id: u64,
        files: Seq<FileEntryView>,
        n: int,
    ) -> nat
        decreases n,
    {
        if n <= 0 {
            0
        } else {
            self.taken(cfg, repo_id, files, n - 1) + if self.with_files(
                cfg,
                repo_id,
                files,
                n - 1,
            ).takes(cfg, repo_id, files[n - 1]) {
                1nat
            } else {
                0nat
            }
        }
    }

    /// Whether the document `d` is one of repository `repo_id` that has no
    /// file among `files`.
    pub open spec fn stale(d: DocumentView, repo_id: u64, files: Seq<FileEntryView>) -> bool {
        d.repo_id == repo_id && !listed(files, d.path)
    }

    /// The corpus without those of the first `n` of `docs` that are stale.
    pub open spec fn pruned(
        self,
        docs: Seq<DocumentView>,
        repo_id: u64,
        files: Seq<FileEntryView>,
        n: int,
    ) -> CorpusView
        decreases n,
    {
        if n <= 0 {
            self
        } else {
            let prev = self.pruned(docs, repo_id, files, n - 1);
            if Self::stale(docs[n - 1], repo_id, files) {
                prev.without(ScopeView::Document(repo_id, docs[n - 1].path))
            } else {
                prev
            }
        }
    }

    /// How many of the first `n` of `docs` are stale.
    pub open spec fn stale_count(
        docs: Seq<DocumentView>,
        repo_id: u64,
        files: Seq<FileEntryView>,
        n: int,
    ) -> nat
        decreases n,
    {
        if n <= 0 {
            0
        } else {
            Self::stale_count(docs, repo_id, files, n - 1) + if Self::stale(
                docs[n - 1],
                repo_id,
                files,
            ) {
                1nat
            } else {
                0nat
            }
        }
    }

    /// What is reported of bringing repository `repo_id` in step with
    /// `files`: the number of documents that left because they have no
    /// file, the number of files that were indexed anew, and the chunk
    /// texts that these queue for embedding.
    pub open spec fn sync_report(self, cfg: ChunkConfig, repo_id: u64, files: Seq<FileEntryView>)
        -> SyncReportView {
        let base = self.pruned(self.documents, repo_id, files, self.documents.len() as int);
        SyncReportView {
            changed: base.taken(cfg, repo_id, files, files.len() as int),
            removed: Self::stale_count(self.documents, repo_id, files, self.documents.len() as int),
            queue: base.queued(cfg, repo_id, files, files.len() as int),
        }
    }

    /// The corpus after repository `repo_id` was brought in step with
    /// `files`: the documents that have no file leave with their chunks
    /// and vectors, then each file is shown.
    pub open spec fn synced(self, cfg: ChunkConfig, repo_id: u64, files: Seq<FileEntryView>)
        -> CorpusView {
        self.pruned(self.documents, repo_id, files, self.documents.len() as int).with_files(
            cfg,
            repo_id,
            files,
            files.len() as int,
        )
    }

    /// Whether the corpus takes the embedding `e` for a chunk of
    /// repository `repo_id`: the chunk is indexed in that repository, the
    /// vector's dimension lies between 1 and `MAX_DIMENSION`, and the
    /// store holds no vector of the same model with another dimension.
    pub open spec fn accepts(self, repo_id: u64, e: ChunkEmbeddingView) -> bool {
        let j = by_chunk(self.lexical, e.chunk_id, 0);
        &&& j < self.lexical.len()
        &&& self.lexical[j].meta.repo_id == repo_id
        &&& 1 <= e.vector.len() <= MAX_DIMENSION
        &&& !clashes(self.vectors, e.model_id, e.vector.len() as int)
    }

    /// The corpus after the embedding `e` was handed to it: where it is
    /// taken, it stands in place of any vector of its chunk.
    pub open spec fn with_embedding(self, repo_id: u64, e: ChunkEmbeddingView) -> CorpusView {
        if self.accepts(repo_id, e) {
            CorpusView {
                vectors: self.vectors.filter(not_among(seq![e.chunk_id])).push(
                    stored_as(self.lexical[by_chunk(self.lexical, e.chunk_id, 0)].meta, e),
                ),
                ..self
            }
        } else {
            self
        }
    }

    /// The corpus after the first `n` of the embeddings `es` were handed
    /// to it.
    pub open spec fn with_embeddings(self, repo_id: u64, es: Seq<ChunkEmbeddingView>, n: int)
        -> CorpusView
        decreases n,
    {
        if n <= 0 {
            self
        } else {
            self.with_embeddings(repo_id, es, n - 1).with_embedding(repo_id, es[n - 1])
        }
    }

    /// How many of the first `n` of the embeddings `es` are taken.
    pub open spec fn accepted(self, repo_id: u64, es: Seq<ChunkEmbeddingView>, n: int) -> nat
        decreases n,
    {
        if n <= 0 {
            0
        } else {
            self.accepted(repo_id, es, n - 1) + if self.with_embeddings(repo_id, es, n - 1).accepts(
                repo_id,
                es[n - 1],
            ) {
                1nat
            } else {
                0nat
            }
        }
    }

    /// The corpus without the documents that the first `n` of `changes`
    /// say were deleted.
    pub open spec fn cleared(self, repo_id: u64, changes: Seq<PendingChangeView>, n: int)
        -> CorpusView
        decreases n,
    {
        if n <= 0 {
            self
        } else {
            let prev = self.cleared(repo_id, changes, n - 1);
            if changes[n - 1].change == ChangeType::Deleted {
                prev.without(ScopeView::Document(repo_id, changes[n - 1].path))
            } else {
                prev
            }
        }
    }

    /// The texts of the chunks of repository `repo_id` among the first
    /// `n` entries, as they go to the embedding model.
    pub open spec fn repo_texts(lexical: Seq<EntryView>, repo_id: u64, n: int) -> Seq<
        (u64, Seq<u8>),
    >
        decreases n,
    {
        if n <= 0 {
            Seq::empty()
        } else {
            let rest = Self::repo_texts(lexical, repo_id, n - 1);
            if lexical[n - 1].meta.repo_id == repo_id {
                rest.push((lexical[n - 1].meta.chunk_id, lexical[n - 1].text))
            } else {
                rest
            }
        }
    }

    /// The documents of repository `repo_id` among the first `n`, each
    /// with its path and content hash, as a manifest lists them.
    pub open spec fn listed_documents(docs: Seq<DocumentView>, repo_id: u64, n: int) -> Seq<
        (Seq<u8>, u64),
    >
        decreases n,
    {
        if n <= 0 {
            Seq::empty()
        } else {
            let rest = Self::listed_documents(docs, repo_id, n - 1);
            if docs[n - 1].repo_id == repo_id {
                rest.push((docs[n - 1].path, docs[n - 1].content_hash))
            } else {
                rest
            }
        }
    }

    /// The manifest of repository `repo_id`, whose embeddings the model
    /// `model_id` makes.
    pub open spec fn manifest_of(self, repo_id: u64, model_id: Seq<u8>) -> ManifestView {
        ManifestView {
            repo_id,
            model_id,
            documents: Self::listed_documents(
                self.documents,
                repo_id,
                self.documents.len() as int,
            ),
        }
    }

    /// The corpus is sound where the lexical index and the embedding store
    /// are, every chunk belongs to exactly one document and every vector
    /// to exactly one chunk.
    pub open spec fn wf(self) -> bool {
        entries_sound(self.lexical) && vectors_sound(self.vectors) && one_dimension(self.vectors)
            && each_chunk_once(self.vectors)
            && consistent(self)
    }
}

/// What bringing a repository in step with its files did: how many
/// documents were indexed anew, how many left, and the chunk texts that
/// are now to be embedded.
#[derive(Debug)]
pub struct SyncReport {
    pub changed: usize,
    pub removed: usize,
    pub queue: Vec<TextChunk>,
}

/// A `SyncReport` as contracts see it.
pub struct SyncReportView {
    pub changed: nat,
    pub removed: nat,
    pub queue: Seq<(u64, Seq<u8>)>,
}

impl View for SyncReport {
    type V = SyncReportView;

    open spec fn view(&self) -> SyncReportView {
        SyncReportView {
            changed: self.changed as nat,
            removed: self.removed as nat,
            queue: views(self.queue@),
        }
    }
}

/// Whether a file of the path `path` is among `files`.
pub fn is_listed(files: &Vec<FileEntry>, path: &[u8]) -> (r: bool)
    ensures
        r == listed(views(files@), path@),
{
    let mut i: usize = 0;
    while i < files.len()
        invariant
            i <= files.len(),
            forall|k: int| 0 <= k < i ==> (#[trigger] views(files@)[k]).path != path@,
        decreases files.len() - i,
    {
        assert(views(files@)[i as int] == files[i as int]@);
        if bytes_eq(files[i].path.as_slice(), path) {
            return true;
        }
        i += 1;
    }
    false
}

/// The indexed corpus.
pub struct Corpus {
    documents: Vec<Document>,
    lexical: LexicalIndex,
    vectors: EmbeddingStore,
    next_chunk_id: u64,
}

impl View for Corpus {
    type V = CorpusView;

    closed spec fn view(&self) -> CorpusView {
        CorpusView {
            documents: views(self.documents@),
            lexical: self.lexical@,
            vectors: self.vectors@,
            next_chunk_id: self.next_chunk_id,
        }
    }
}

impl Corpus {
    /// A corpus without documents. The first chunk gets the id 1.
    pub fn new() -> (r: Corpus)
        ensures
            r@.wf(),
            r@ == (CorpusView {
                documents: Seq::empty(),
                lexical: Seq::empty(),
                vectors: Seq::empty(),
                next_chunk_id: 1,
            }),
    {
        let r = Corpus {
            documents: Vec::new(),
            lexical: LexicalIndex::new(),
            vectors: EmbeddingStore::new(),
            next_chunk_id: 1,
        };
        assert(views(r.documents@) =~= Seq::<DocumentView>::empty());
        r
    }

    /// Whether every chunk belongs to a document.
    fn is_housed(&self) -> (r: bool)
        ensures
            r == housed(self@),
    {
        let ghost c = self@;
        let mut j: usize = 0;
        while j < self.lexical.len()
            invariant
                j <= c.lexical.len(),
                c == self@,
                forall|m: int| 0 <= m < j ==> has_document(c.documents, #[trigger] c.lexical[m]),
            decreases c.lexical.len() - j,
        {
            let e = self.lexical.entry(j);
            let mut k: usize = 0;
            let mut found = false;
            while k < self.documents.len() && !found
                invariant
                    k <= self.documents.len(),
                    c == self@,
                    j < c.lexical.len(),
                    e@ == c.lexical[j as int],
                    found ==> has_document(c.documents, c.lexical[j as int]),
                    !found ==> forall|m: int|
                        0 <= m < k ==> !houses(#[trigger] c.documents[m], c.lexical[j as int]),
                decreases self.documents.len() - k + if found { 0int } else { 1int },
            {
                assert(c.documents[k as int] == self.documents[k as int]@);
                let d = &self.documents[k];
                if d.repo_id == e.meta.repo_id && bytes_eq(d.path.as_slice(), e.meta.path.as_slice()) {
                    found = true;
                } else {
                    k += 1;
                }
            }
            if !found {
                return false;
            }
            j += 1;
        }
        true
    }

    /// Whether every vector belongs to a chunk.
    fn is_anchored(&self) -> (r: bool)
        ensures
            r == anchored(self@),
    {
        let ghost c = self@;
        let mut i: usize = 0;
        while i < self.vectors.len()
            invariant
                i <= c.vectors.len(),
                c == self@,
                forall|m: int| 0 <= m < i ==> has_chunk(c.lexical, #[trigger] c.vectors[m]),
            decreases c.vectors.len() - i,
        {
            let v = self.vectors.stored(i);
            let mut j: usize = 0;
            let mut found = false;
            while j < self.lexical.len() && !found
                invariant
                    j <= c.lexical.len(),
                    c == self@,
                    i < c.vectors.len(),
                    v@ == c.vectors[i as int],
                    found ==> has_chunk(c.lexical, c.vectors[i as int]),
                    !found ==> forall|m: int|
                        0 <= m < j ==> (#[trigger] c.lexical[m]).meta != c.vectors[i as int].meta,
                decreases c.lexical.len() - j + if found { 0int } else { 1int },
            {
                if self.lexical.entry(j).meta.same(&v.meta) {
                    found = true;
                } else {
                    j += 1;
                }
            }
            if !found {
                return false;
            }
            i += 1;
        }
        true
    }

    /// Whether the chunks have ids of their own, all below the next id.
    fn has_distinct_chunks(&self) -> (r: bool)
        ensures
            r == distinct_chunks(self@),
    {
        let ghost c = self@;
        let mut j: usize = 0;
        while j < self.lexical.len()
            invariant
                j <= c.lexical.len(),
                c == self@,
                forall|a: int, b: int|
                    0 <= a < b < j ==> #[trigger] apart(c.lexical[a], c.lexical[b]),
                forall|a: int| 0 <= a < j ==> (#[trigger] c.lexical[a]).meta.chunk_id < c.next_chunk_id,
            decreases c.lexical.len() - j,
        {
            let id = self.lexical.entry(j).meta.chunk_id;
            if id >= self.next_chunk_id {
                return false;
            }
            let mut i: usize = 0;
            while i < j
                invariant
                    i <= j,
                    j < c.lexical.len(),
                    c == self@,
                    id == c.lexical[j as int].meta.chunk_id,
                    forall|a: int| 0 <= a < i ==> #[trigger] apart(c.lexical[a], c.lexical[j as int]),
                decreases j - i,
            {
                if self.lexical.entry(i).meta.chunk_id == id {
                    assert(!apart(c.lexical[i as int], c.lexical[j as int]));
                    return false;
                }
                i += 1;
            }
            j += 1;
        }
        true
    }

    /// Whether no two documents are of one file.
    fn has_distinct_documents(&self) -> (r: bool)
        ensures
            r == distinct_documents(self@),
    {
        let ghost c = self@;
        let mut j: usize = 0;
        while j < self.documents.len()
            invariant
                j <= self.documents.len(),
                c == self@,
                forall|a: int, b: int|
                    0 <= a < b < j ==> #[trigger] elsewhere(c.documents[a], c.documents[b]),
            decreases self.documents.len() - j,
        {
            let mut i: usize = 0;
            while i < j
                invariant
                    i <= j,
                    j < self.documents.len(),
                    c == self@,
                    forall|a: int|
                        0 <= a < i ==> #[trigger] elsewhere(c.documents[a], c.documents[j as int]),
                decreases j - i,
            {
                assert(c.documents[i as int] == self.documents[i as int]@);
                assert(c.documents[j as int] == self.documents[j as int]@);
                if self.documents[i].repo_id == self.documents[j].repo_id && bytes_eq(
                    self.documents[i].path.as_slice(),
                    self.documents[j].path.as_slice(),
                ) {
                    assert(!elsewhere(c.documents[i as int], c.documents[j as int]));
                    return false;
                }
                i += 1;
            }
            j += 1;
        }
        true
    }

    /// A corpus of what an earlier run wrote out, or none where that is
    /// not sound: an entry that does not hold the tokens of its text, a
    /// vector without its chunk, a chunk without its document, two
    /// chunks of one id. The corpus is then corrupt and the repositories
    /// are to be indexed anew.
    pub fn restore(
        documents: Vec<Document>,
        entries: Vec<Entry>,
        vectors: Vec<StoredVector>,
        next_chunk_id: u64,
    ) -> (r: Option<Corpus>)
        ensures
            r is Some <==> (CorpusView {
                documents: views(documents@),
                lexical: views(entries@),
                vectors: views(vectors@),
                next_chunk_id,
            }).wf(),
            r matches Some(c) ==> c@ == (CorpusView {
                documents: views(documents@),
                lexical: views(entries@),
                vectors: views(vectors@),
                next_chunk_id,
            }),
    {
        let lexical = match LexicalIndex::restore(entries) {
            Some(l) => l,
            None => {
                return None;
            },
        };
        let store = match EmbeddingStore::restore(vectors) {
            Some(s) => s,
            None => {
                return None;
            },
        };
        let corpus = Corpus { documents, lexical, vectors: store, next_chunk_id };
        if corpus.is_housed() && corpus.is_anchored() && corpus.has_distinct_chunks()
            && corpus.has_distinct_documents() {
            Some(corpus)
        } else {
            None
        }
    }

    /// The manifest of repository `repo_id`, whose embeddings the model
    /// `model_id` makes.
    pub fn manifest(&self, repo_id: u64, model_id: Vec<u8>) -> (m: Manifest)
        ensures
            m@ == self@.manifest_of(repo_id, model_id@),
    {
        let ghost docs = views(self.documents@);
        let mut documents: Vec<ManifestEntry> = Vec::new();
        let mut n: usize = 0;
        assert(views(documents@) =~= CorpusView::listed_documents(docs, repo_id, 0));
        while n < self.documents.len()
            invariant
                n <= self.documents.len(),
                docs == views(self.documents@),
                views(documents@) == CorpusView::listed_documents(docs, repo_id, n as int),
            decreases self.documents.len() - n,
        {
            assert(docs[n as int] == self.documents[n as int]@);
            let ghost before = views(documents@);
            let d = &self.documents[n];
            if d.repo_id == repo_id {
                documents.push(ManifestEntry { path: copy_bytes(&d.path), content_hash: d.content_hash });
                assert(views(documents@) =~= before.push((docs[n as int].path, docs[n as int].content_hash)));
            }
            n += 1;
        }
        Manifest { repo_id, model_id, documents }
    }

    /// The id that the next new chunk gets.
    pub fn upcoming(&self) -> (id: u64)
        ensures
            id == self@.next_chunk_id,
    {
        self.next_chunk_id
    }

    /// The lexical index.
    pub fn lexical(&self) -> (r: &LexicalIndex)
        ensures
            r@ == self@.lexical,
    {
        &self.lexical
    }

    /// The embedding store.
    pub fn vectors(&self) -> (r: &EmbeddingStore)
        ensures
            r@ == self@.vectors,
    {
        &self.vectors
    }

    /// The documents.
    pub fn documents(&self) -> (r: &Vec<Document>)
        ensures
            views(r@) == self@.documents,
    {
        &self.documents
    }

    /// Removes what lies in `scope`: documents, chunks and vectors.
    pub fn drop(&mut self, scope: &Scope)
        requires
            old(self)@.wf(),
        ensures
            final(self)@.wf(),
            final(self)@ == old(self)@.without(scope@),
    {
        proof {
            lemma_without_consistent(self@, scope@);
        }
        let mut taken: Vec<Document> = Vec::new();
        std::mem::swap(&mut self.documents, &mut taken);
        self.documents = drop_scope(taken, scope);
        self.lexical.remove(scope);
        self.vectors.remove(scope);
    }

    /// Whether the document `path` of repository `repo_id` is indexed
    /// with the content hash `hash`.
    pub fn is_known(&self, repo_id: u64, path: &[u8], hash: u64) -> (r: bool)
        ensures
            r == known(self@.documents, repo_id, path@, hash),
    {
        let mut i: usize = 0;
        let ghost docs = views(self.documents@);
        while i < self.documents.len()
            invariant
                i <= self.documents.len(),
                docs == views(self.documents@),
                forall|k: int|
                    0 <= k < i ==> !((#[trigger] docs[k]).repo_id == repo_id && docs[k].path
                        == path@ && docs[k].content_hash == hash),
            decreases self.documents.len() - i,
        {
            assert(docs[i as int] == self.documents[i as int]@);
            let d = &self.documents[i];
            if d.repo_id == repo_id && d.content_hash == hash && bytes_eq(d.path.as_slice(), path) {
                return true;
            }
            i += 1;
        }
        false
    }

    /// Shows the file `file` of repository `repo_id` to the corpus and
    /// queues the texts of its new chunks for embedding. A file whose
    /// content hash is the indexed one is skipped.
    pub fn put(
        &mut self,
        cfg: &ChunkConfig,
        repo_id: u64,
        file: FileEntry,
        queue: &mut Vec<TextChunk>,
    ) -> (changed: bool)
        requires
            old(self)@.wf(),
            cfg.wf(),
        ensures
            final(self)@.wf(),
            final(self)@ == old(self)@.with_file(*cfg, repo_id, file@),
            changed == old(self)@.takes(*cfg, repo_id, file@),
            views(final(queue)@) == views(old(queue)@) + old(self)@.queues(*cfg, repo_id, file@),
    {
        let ghost before = self@;
        let ghost queued = views(queue@);
        proof {
            lemma_with_file_consistent(before, *cfg, repo_id, file@);
        }
        let hash = hash_bytes(file.content.as_slice());
        if self.is_known(repo_id, file.path.as_slice(), hash) {
            assert(views(queue@) + Seq::<(u64, Seq<u8>)>::empty() =~= views(queue@));
            return false;
        }
        let chunks = chunk(file.content.as_slice(), file.kind, cfg);
        let count = chunks.len();
        if u64::MAX - self.next_chunk_id < count as u64 {
            assert(views(queue@) + Seq::<(u64, Seq<u8>)>::empty() =~= views(queue@));
            return false;
        }
        let first = self.next_chunk_id;
        let ghost cv = views(chunks@);
        let mut i: usize = 0;
        while i < chunks.len()
            invariant
                i <= chunks.len(),
                count == chunks.len(),
                first + count <= u64::MAX,
                cv == views(chunks@),
                views(queue@) == queued + texts_of(first, cv).take(i as int),
            decreases chunks.len() - i,
        {
            let ghost q = views(queue@);
            assert(cv[i as int] == chunks[i as int]@);
            let t = TextChunk { chunk_id: first + i as u64, text: copy_bytes(&chunks[i].text) };
            assert(t@ == texts_of(first, cv)[i as int]);
            queue.push(t);
            assert(views(queue@) =~= q.push(texts_of(first, cv)[i as int]));
            assert(texts_of(first, cv).take(i + 1) =~= texts_of(first, cv).take(i as int).push(
                texts_of(first, cv)[i as int],
            ));
            i += 1;
        }
        assert(texts_of(first, cv).take(count as int) =~= texts_of(first, cv));
        let scope = Scope::Document(repo_id, copy_bytes(&file.path));
        let mut taken: Vec<Document> = Vec::new();
        std::mem::swap(&mut self.documents, &mut taken);
        self.documents = drop_scope(taken, &scope);
        self.vectors.remove(&scope);
        self.lexical.upsert(repo_id, file.kind, file.path.as_slice(), first, chunks);
        let ghost kept = views(self.documents@);
        let doc = Document {
            repo_id,
            path: file.path,
            content_hash: hash,
            kind: file.kind,
            mtime: file.mtime,
            first_chunk: first,
            chunk_count: count,
        };
        let ghost dv = doc@;
        self.documents.push(doc);
        assert(views(self.documents@) =~= kept.push(dv));
        self.next_chunk_id = first + count as u64;
        true
    }

    /// Hands the embedding `e` of a chunk of repository `repo_id` to the
    /// corpus. An embedding that is not taken changes nothing.
    pub fn store(&mut self, repo_id: u64, e: ChunkEmbedding) -> (taken: bool)
        requires
            old(self)@.wf(),
        ensures
            final(self)@.wf(),
            final(self)@ == old(self)@.with_embedding(repo_id, e@),
            taken == old(self)@.accepts(repo_id, e@),
    {
        proof {
            lemma_by_chunk(self@.lexical, e.chunk_id, 0);
            lemma_with_embedding_consistent(self@, repo_id, e@);
        }
        let j = match self.lexical.find_chunk(e.chunk_id) {
            Some(j) => j,
            None => {
                return false;
            },
        };
        let entry = self.lexical.entry(j);
        if entry.meta.repo_id != repo_id {
            return false;
        }
        let meta = entry.meta.duplicate();
        match self.vectors.upsert(meta, e) {
            Ok(()) => true,
            Err(_) => false,
        }
    }

    /// The texts of all chunks of repository `repo_id`, as they go to the
    /// embedding model.
    pub fn texts(&self, repo_id: u64) -> (out: Vec<TextChunk>)
        ensures
            views(out@) == CorpusView::repo_texts(
                self@.lexical,
                repo_id,
                self@.lexical.len() as int,
            ),
    {
        let mut out: Vec<TextChunk> = Vec::new();
        let mut n: usize = 0;
        let ghost lex = self.lexical@;
        assert(views(out@) =~= CorpusView::repo_texts(lex, repo_id, 0));
        while n < self.lexical.len()
            invariant
                n <= lex.len(),
                lex == self.lexical@,
                views(out@) == CorpusView::repo_texts(lex, repo_id, n as int),
            decreases lex.len() - n,
        {
            let e = self.lexical.entry(n);
            let ghost before = views(out@);
            if e.meta.repo_id == repo_id {
                let t = TextChunk { chunk_id: e.meta.chunk_id, text: copy_bytes(&e.text) };
                out.push(t);
                assert(views(out@) =~= before.push((lex[n as int].meta.chunk_id, lex[n as int].text)));
            }
            n += 1;
        }
        out
    }

    /// Brings repository `repo_id` in step with `files`: documents that
    /// have no file among them leave with their chunks and vectors, files
    /// whose content hash is the indexed one are skipped, and the others
    /// are chunked and indexed anew.
    pub fn sync(&mut self, cfg: &ChunkConfig, repo_id: u64, files: Vec<FileEntry>) -> (r:
        SyncReport)
        requires
            old(self)@.wf(),
            cfg.wf(),
        ensures
            final(self)@.wf(),
            final(self)@ == old(self)@.synced(*cfg, repo_id, views(files@)),
            r@ == old(self)@.sync_report(*cfg, repo_id, views(files@)),
    {
        let ghost start = self@;
        let ghost docs = start.documents;
        let ghost fv = views(files@);
        let mut places: Vec<(u64, Vec<u8>)> = Vec::new();
        let mut k: usize = 0;
        while k < self.documents.len()
            invariant
                k <= self.documents.len(),
                self@ == start,
                docs == views(self.documents@),
                places.len() == k,
                forall|m: int|
                    0 <= m < k ==> (#[trigger] places[m]).0 == docs[m].repo_id && places[m].1@
                        == docs[m].path,
            decreases self.documents.len() - k,
        {
            assert(docs[k as int] == self.documents[k as int]@);
            places.push((self.documents[k].repo_id, copy_bytes(&self.documents[k].path)));
            k += 1;
        }
        let mut removed: usize = 0;
        let mut n: usize = 0;
        while n < places.len()
            invariant
                n <= places.len(),
                places.len() == docs.len(),
                removed <= n,
                fv == views(files@),
                forall|m: int|
                    0 <= m < places.len() ==> (#[trigger] places[m]).0 == docs[m].repo_id
                        && places[m].1@ == docs[m].path,
                self@.wf(),
                self@ == start.pruned(docs, repo_id, fv, n as int),
                removed == CorpusView::stale_count(docs, repo_id, fv, n as int),
            decreases places.len() - n,
        {
            if places[n].0 == repo_id && !is_listed(&files, places[n].1.as_slice()) {
                let scope = Scope::Document(repo_id, copy_bytes(&places[n].1));
                self.drop(&scope);
                removed += 1;
            }
            n += 1;
        }
        let ghost base = self@;
        let mut queue: Vec<TextChunk> = Vec::new();
        let mut changed: usize = 0;
        let count = files.len();
        let mut i: usize = 0;
        assert(views(queue@) =~= base.queued(*cfg, repo_id, fv, 0));
        for f in it: files
            invariant
                i == it.index(),
                it.seq() == files@,
                it.seq().len() == count,
                fv == views(files@),
                cfg.wf(),
                changed <= i,
                self@.wf(),
                self@ == base.with_files(*cfg, repo_id, fv, i as int),
                changed == base.taken(*cfg, repo_id, fv, i as int),
                views(queue@) == base.queued(*cfg, repo_id, fv, i as int),
        {
            assert(fv[i as int] == f@);
            if self.put(cfg, repo_id, f, &mut queue) {
                changed += 1;
            }
            i += 1;
        }
        SyncReport { changed, removed, queue }
    }
}

/// A file whose content hash is the indexed one is skipped: the corpus
/// stays as it is, no chunk gets a new id and nothing is queued for
/// embedding.
pub proof fn lemma_unchanged_file_is_skipped(
    c: CorpusView,
    cfg: ChunkConfig,
    repo_id: u64,
    f: FileEntryView,
)
    requires
        known(c.documents, repo_id, f.path, content_hash(f.content)),
    ensures
        c.with_file(cfg, repo_id, f) == c,
        c.queues(cfg, repo_id, f).len() == 0,
        !c.takes(cfg, repo_id, f),
{
}

/// Indexing a repository again whose files are all as they were indexed
/// changes nothing: where every file has the indexed content hash and
/// every document of the repository has its file, the corpus stays as it
/// is, chunk ids and vectors with it, no document counts as changed or
/// removed, and nothing is queued for embedding.
pub proof fn lemma_resync_is_idle(
    c: CorpusView,
    cfg: ChunkConfig,
    repo_id: u64,
    files: Seq<FileEntryView>,
)
    requires
        forall|i: int|
            0 <= i < files.len() ==> known(
                c.documents,
                repo_id,
                (#[trigger] files[i]).path,
                content_hash(files[i].content),
            ),
        forall|k: int|
            0 <= k < c.documents.len() ==> !CorpusView::stale(
                #[trigger] c.documents[k],
                repo_id,
                files,
            ),
    ensures
        c.synced(cfg, repo_id, files) == c,
        c.pruned(c.documents, repo_id, files, c.documents.len() as int) == c,
        c.queued(cfg, repo_id, files, files.len() as int).len() == 0,
        c.taken(cfg, repo_id, files, files.len() as int) == 0,
        CorpusView::stale_count(c.documents, repo_id, files, c.documents.len() as int) == 0,
{
    lemma_no_stale(c, c.documents, repo_id, files, c.documents.len() as int);
    lemma_all_known(c, cfg, repo_id, files, files.len() as int);
}

/// A search after a repository was indexed again with files that are all
/// as they were indexed gives what it gave before: the same results in
/// the same order, and so the same chunks.
pub proof fn lemma_resync_keeps_answers(
    c: CorpusView,
    cfg: ChunkConfig,
    repo_id: u64,
    files: Seq<FileEntryView>,
    k: u32,
    query: Seq<u8>,
    mode: crate::engine::searcher::SearchMode,
    f: Filters,
    limit: usize,
    group: bool,
    vector: Option<(Seq<u8>, Seq<i16>)>,
)
    requires
        forall|i: int|
            0 <= i < files.len() ==> known(
                c.documents,
                repo_id,
                (#[trigger] files[i]).path,
                content_hash(files[i].content),
            ),
        forall|k: int|
            0 <= k < c.documents.len() ==> !CorpusView::stale(
                #[trigger] c.documents[k],
                repo_id,
                files,
            ),
    ensures
        answer(
            c.synced(cfg, repo_id, files).lexical,
            c.synced(cfg, repo_id, files).vectors,
            k,
            query,
            mode,
            f,
            limit,
            group,
            vector,
        ) == answer(c.lexical, c.vectors, k, query, mode, f, limit, group, vector),
{
    lemma_resync_is_idle(c, cfg, repo_id, files);
}

/// Where every document has its file, pruning takes nothing.
pub proof fn lemma_no_stale(
    c: CorpusView,
    docs: Seq<DocumentView>,
    repo_id: u64,
    files: Seq<FileEntryView>,
    n: int,
)
    requires
        n <= docs.len(),
        forall|k: int| 0 <= k < docs.len() ==> !CorpusView::stale(#[trigger] docs[k], repo_id, files),
    ensures
        c.pruned(docs, repo_id, files, n) == c,
        CorpusView::stale_count(docs, repo_id, files, n) == 0,
    decreases n,
{
    if n > 0 {
        lemma_no_stale(c, docs, repo_id, files, n - 1);
    }
}

/// Where every file is indexed with its content hash, showing the files
/// changes nothing and queues nothing.
pub proof fn lemma_all_known(
    c: CorpusView,
    cfg: ChunkConfig,
    repo_id: u64,
    files: Seq<FileEntryView>,
    n: int,
)
    requires
        n <= files.len(),
        forall|i: int|
            0 <= i < files.len() ==> known(
                c.documents,
                repo_id,
                (#[trigger] files[i]).path,
                content_hash(files[i].content),
            ),
    ensures
        c.with_files(cfg, repo_id, files, n) == c,
        c.queued(cfg, repo_id, files, n).len() == 0,
        c.taken(cfg, repo_id, files, n) == 0,
    decreases n,
{
    if n > 0 {
        lemma_all_known(c, cfg, repo_id, files, n - 1);
    }
}

/// A repository that was removed is gone: the corpus holds no document,
/// no chunk and no vector of it, and a search that is filtered to it,
/// lexical or by vectors, has no results.
pub proof fn lemma_removed_repository_is_gone(
    c: CorpusView,
    repo_id: u64,
    q: Seq<ClauseView>,
    query: Seq<i16>,
    model: Seq<u8>,
    f: Filters,
)
    requires
        c.wf(),
        f.repo_id == Some(repo_id),
        query.len() <= MAX_DIMENSION,
    ensures
        ({
            let r = c.without(ScopeView::Repository(repo_id));
            &&& r.wf()
            &&& forall|i: int| 0 <= i < r.documents.len() ==> (#[trigger] r.documents[i]).repo_id != repo_id
            &&& forall|i: int| 0 <= i < r.lexical.len() ==> (#[trigger] r.lexical[i]).meta.repo_id != repo_id
            &&& forall|i: int| 0 <= i < r.vectors.len() ==> (#[trigger] r.vectors[i]).meta.repo_id != repo_id
            &&& search(r.lexical, q, f).len() == 0
            &&& nearest_to(r.vectors, query, model, f).len() == 0
        }),
{
    let scope = ScopeView::Repository(repo_id);
    let r = c.without(scope);
    lemma_without_consistent(c, scope);
    lemma_filter_all(c.documents, outside::<Document>(scope), |d: DocumentView| true);
    lemma_filter_all(c.lexical, outside::<Entry>(scope), |e: EntryView| e.wf());
    crate::engine::vectors::lemma_filter_keeps_store(c.vectors, outside::<StoredVector>(scope));
    lemma_filter_all(c.vectors, outside::<StoredVector>(scope), |v: StoredVectorView| true);
    lemma_absent_repository_is_silent(r.lexical, q, f, repo_id);
    lemma_nearest_sound(r.vectors, query, model, f);
    if nearest_to(r.vectors, query, model, f).len() > 0 {
        let n = nearest_to(r.vectors, query, model, f);
        let i = choose|i: int|
            0 <= i < r.vectors.len() && r.vectors[i].model_id == model
                && crate::engine::vectors::eligible(r.vectors[i], query, model, f) && #[trigger] n[0]
                == crate::engine::vectors::neighbor_of(r.vectors[i], query);
        assert(r.vectors[i].meta.repo_id != repo_id);
    }
}

/// Why the indexer refuses an operation.
#[derive(Clone, Copy, PartialEq, Eq, Structural, Debug)]
pub enum IndexError {
    /// No repository is registered under the id or root path.
    UnknownRepository,
    /// The registry has run out of repository ids.
    RegistryFull,
    /// What an earlier run wrote out does not hang together. The
    /// repositories are to be indexed anew.
    Corrupt,
}

/// What indexing a repository did.
#[derive(Debug)]
pub struct IndexReport {
    pub repo_id: u64,
    pub sync: SyncReport,
}

/// What is to be embedded for one repository in a rebuild, and the
/// generation under which the vectors are to come back.
#[derive(Debug)]
pub struct RebuildJob {
    pub repo_id: u64,
    pub generation: u64,
    pub chunks: Vec<TextChunk>,
}

/// A `RebuildJob` as contracts see it.
pub struct RebuildJobView {
    pub repo_id: u64,
    pub generation: u64,
    pub chunks: Seq<(u64, Seq<u8>)>,
}

impl View for RebuildJob {
    type V = RebuildJobView;

    open spec fn view(&self) -> RebuildJobView {
        RebuildJobView {
            repo_id: self.repo_id,
            generation: self.generation,
            chunks: views(self.chunks@),
        }
    }
}

/// The state of the indexer as contracts see it.
pub struct IndexerView {
    pub repos: Seq<RepositoryView>,
    pub next_repo_id: u64,
    pub corpus: CorpusView,
    pub chunking: ChunkConfig,
}

impl IndexerView {
    /// The indexer is sound where its registry, its corpus and its
    /// chunking configuration are.
    pub open spec fn wf(self) -> bool {
        distinct(self.repos, self.next_repo_id) && self.corpus.wf() && self.chunking.wf()
    }

    /// Whether there is a repository id left for the root path `path`.
    pub open spec fn admits(self, path: Seq<u8>) -> bool {
        by_path(self.repos, path, 0) < self.repos.len() || self.next_repo_id < u64::MAX
    }

    /// The indexer after the repository at `path` was indexed at `now`
    /// with the files `files`: the repository is registered where it was
    /// not, noted as indexed at `now`, and brought in step with the files.
    pub open spec fn indexed(
        self,
        path: Seq<u8>,
        name: Option<Seq<u8>>,
        files: Seq<FileEntryView>,
        now: u64,
    ) -> IndexerView {
        let repos = Registry::registered(self.repos, self.next_repo_id, path, name, now);
        let i = by_path(repos, path, 0);
        IndexerView {
            repos: Registry::marked(repos, i, now, repos[i].generation),
            next_repo_id: if by_path(self.repos, path, 0) < self.repos.len() {
                self.next_repo_id
            } else {
                (self.next_repo_id + 1) as u64
            },
            corpus: self.corpus.synced(self.chunking, repos[i].id, files),
            chunking: self.chunking,
        }
    }

    /// The indexer after the repository at position `i` was updated at
    /// `now` with the files `files`.
    pub open spec fn updated(self, i: int, files: Seq<FileEntryView>, now: u64) -> IndexerView {
        IndexerView {
            repos: Registry::marked(self.repos, i, now, self.repos[i].generation),
            corpus: self.corpus.synced(self.chunking, self.repos[i].id, files),
            ..self
        }
    }

    /// How many of the first `n` of `changes` say that a file was
    /// deleted.
    pub open spec fn deletions(changes: Seq<PendingChangeView>, n: int) -> nat
        decreases n,
    {
        if n <= 0 {
            0
        } else {
            Self::deletions(changes, n - 1) + if changes[n - 1].change == ChangeType::Deleted {
                1nat
            } else {
                0nat
            }
        }
    }

    /// The corpus of the repository at position `i` after the deletions of
    /// a batch were applied.
    pub open spec fn swept(self, i: int, batch: RepoBatchView) -> CorpusView {
        self.corpus.cleared(self.repos[i].id, batch.changes, batch.changes.len() as int)
    }

    /// The indexer after a batch of the watcher was applied at `now` to
    /// the repository at position `i`. A batch that asks for a full rescan
    /// takes `files` as all files of the repository. Any other batch
    /// removes the documents that it says were deleted and is then shown
    /// `files`, the files that it says were created or modified.
    pub open spec fn applied(self, i: int, batch: RepoBatchView, files: Seq<FileEntryView>, now: u64)
        -> IndexerView {
        if batch.full_rescan {
            self.updated(i, files, now)
        } else {
            IndexerView {
                repos: Registry::marked(self.repos, i, now, self.repos[i].generation),
                corpus: self.swept(i, batch).with_files(
                    self.chunking,
                    self.repos[i].id,
                    files,
                    files.len() as int,
                ),
                ..self
            }
        }
    }

    /// What is reported of applying a batch to the repository at position
    /// `i`: for a full rescan what bringing the repository in step with
    /// `files` reports; else the number of deletions in the batch, the
    /// number of files that were indexed anew, and the chunk texts that
    /// these queue for embedding.
    pub open spec fn apply_report(self, i: int, batch: RepoBatchView, files: Seq<FileEntryView>)
        -> SyncReportView {
        if batch.full_rescan {
            self.corpus.sync_report(self.chunking, self.repos[i].id, files)
        } else {
            SyncReportView {
                changed: self.swept(i, batch).taken(
                    self.chunking,
                    self.repos[i].id,
                    files,
                    files.len() as int,
                ),
                removed: Self::deletions(batch.changes, batch.changes.len() as int),
                queue: self.swept(i, batch).queued(
                    self.chunking,
                    self.repos[i].id,
                    files,
                    files.len() as int,
                ),
            }
        }
    }

    /// Whether a rebuild for `target` is one for the repository `r`: a
    /// rebuild without a target is one for every repository.
    pub open spec fn targeted(r: RepositoryView, target: Option<u64>) -> bool {
        target matches Some(id) ==> r.id == id
    }

    /// The repositories after a rebuild for `target` was begun for those
    /// among the first `n`: each of them stands at its next generation.
    pub open spec fn bumped(repos: Seq<RepositoryView>, target: Option<u64>, n: int) -> Seq<
        RepositoryView,
    >
        decreases n,
    {
        if n <= 0 {
            repos
        } else {
            let prev = Self::bumped(repos, target, n - 1);
            if Self::targeted(repos[n - 1], target) {
                prev.update(
                    n - 1,
                    RepositoryView {
                        generation: repos[n - 1].generation.wrapping_add(1),
                        ..repos[n - 1]
                    },
                )
            } else {
                prev
            }
        }
    }

    /// The jobs of a rebuild for `target` among the first `n`
    /// repositories: for each of them its new generation and the texts of
    /// all its chunks.
    pub open spec fn jobs(self, target: Option<u64>, n: int) -> Seq<RebuildJobView>
        decreases n,
    {
        if n <= 0 {
            Seq::empty()
        } else {
            let prev = self.jobs(target, n - 1);
            if Self::targeted(self.repos[n - 1], target) {
                prev.push(
                    RebuildJobView {
                        repo_id: self.repos[n - 1].id,
                        generation: self.repos[n - 1].generation.wrapping_add(1),
                        chunks: CorpusView::repo_texts(
                            self.corpus.lexical,
                            self.repos[n - 1].id,
                            self.corpus.lexical.len() as int,
                        ),
                    },
                )
            } else {
                prev
            }
        }
    }

    /// The indexer after the embeddings `es` came back for the repository
    /// at position `i` under the generation `generation`: they are handed
    /// to the corpus where that is the generation at which the repository
    /// stands, and dropped where a later rebuild has been begun.
    pub open spec fn embedded(self, i: int, generation: u64, es: Seq<ChunkEmbeddingView>)
        -> IndexerView {
        if self.repos[i].generation == generation {
            IndexerView {
                corpus: self.corpus.with_embeddings(self.repos[i].id, es, es.len() as int),
                ..self
            }
        } else {
            self
        }
    }

    /// The indexer after the repository at position `i` was removed with
    /// all its documents, chunks and vectors.
    pub open spec fn removed(self, i: int) -> IndexerView {
        IndexerView {
            repos: self.repos.remove(i),
            corpus: self.corpus.without(ScopeView::Repository(self.repos[i].id)),
            ..self
        }
    }
}

/// The indexer.
pub struct Indexer {
    registry: Registry,
    corpus: Corpus,
    chunking: ChunkConfig,
}

impl View for Indexer {
    type V = IndexerView;

    closed spec fn view(&self) -> IndexerView {
        IndexerView {
            repos: self.registry@,
            next_repo_id: self.registry.next_id(),
            corpus: self.corpus@,
            chunking: self.chunking,
        }
    }
}

impl Indexer {
    /// An indexer without repositories that chunks as `chunking` says.
    pub fn new(chunking: ChunkConfig) -> (r: Indexer)
        requires
            chunking.wf(),
        ensures
            r@.wf(),
            r@.repos == Seq::<RepositoryView>::empty(),
            r@.corpus.documents == Seq::<DocumentView>::empty(),
            r@.corpus.lexical == Seq::<EntryView>::empty(),
            r@.corpus.vectors == Seq::<StoredVectorView>::empty(),
            r@.chunking == chunking,
    {
        Indexer { registry: Registry::new(), corpus: Corpus::new(), chunking }
    }

    /// An indexer of what an earlier run wrote out. Fails where that does
    /// not hang together.
    pub fn restore(chunking: ChunkConfig, registry: Option<Registry>, corpus: Option<Corpus>) -> (r:
        Result<Indexer, IndexError>)
        requires
            registry matches Some(reg) ==> reg.wf(),
            corpus matches Some(c) ==> c@.wf(),
        ensures
            r is Ok <==> registry is Some && corpus is Some && chunking.wf(),
            match r {
                Ok(indexer) => {
                    &&& indexer@.wf()
                    &&& indexer@.repos == registry->Some_0@
                    &&& indexer@.next_repo_id == registry->Some_0.next_id()
                    &&& indexer@.corpus == corpus->Some_0@
                    &&& indexer@.chunking == chunking
                },
                Err(e) => e == IndexError::Corrupt,
            },
    {
        if !(chunking.max_bytes >= 1 && chunking.window_lines >= 1 && chunking.overlap_lines
            < chunking.window_lines) {
            return Err(IndexError::Corrupt);
        }
        match registry {
            Some(registry) => match corpus {
                Some(corpus) => Ok(Indexer { registry, corpus, chunking }),
                None => Err(IndexError::Corrupt),
            },
            None => Err(IndexError::Corrupt),
        }
    }

    /// The id that the next new repository gets.
    pub fn upcoming(&self) -> (id: u64)
        ensures
            id == self@.next_repo_id,
    {
        self.registry.upcoming()
    }

    /// The corpus.
    pub fn corpus(&self) -> (r: &Corpus)
        ensures
            r@ == self@.corpus,
    {
        &self.corpus
    }

    /// All repositories.
    pub fn list(&self) -> (r: &Vec<Repository>)
        ensures
            views(r@) == self@.repos,
    {
        self.registry.list()
    }

    /// The id of the repository at the root path `path`.
    pub fn repository_at(&self, path: &[u8]) -> (r: Option<u64>)
        ensures
            match r {
                Some(id) => by_path(self@.repos, path@, 0) < self@.repos.len() && id
                    == self@.repos[by_path(self@.repos, path@, 0)].id,
                None => by_path(self@.repos, path@, 0) == self@.repos.len(),
            },
    {
        match self.registry.find_path(path) {
            Some(i) => Some(self.registry.get(i).id),
            None => None,
        }
    }

    /// Indexes the repository at the root path `path` with the files
    /// `files`, under `name` where it is new and a name is given. Fails,
    /// and changes nothing, only where the repository is new and the
    /// registry has run out of ids.
    pub fn index(&mut self, path: &[u8], name: Option<Vec<u8>>, files: Vec<FileEntry>, now: u64)
        -> (r: Result<IndexReport, IndexError>)
        requires
            old(self)@.wf(),
        ensures
            final(self)@.wf(),
            r is Ok <==> old(self)@.admits(path@),
            match r {
                Ok(report) => {
                    &&& final(self)@ == old(self)@.indexed(
                        path@,
                        match name {
                            Some(n) => Some(n@),
                            None => None,
                        },
                        views(files@),
                        now,
                    )
                    &&& report.sync@ == old(self)@.corpus.sync_report(
                        old(self)@.chunking,
                        report.repo_id,
                        views(files@),
                    )
                    &&& by_path(final(self)@.repos, path@, 0) < final(self)@.repos.len()
                    &&& report.repo_id == final(self)@.repos[by_path(
                        final(self)@.repos,
                        path@,
                        0,
                    )].id
                },
                Err(e) => e == IndexError::RegistryFull && final(self)@ == old(self)@,
            },
    {
        let ghost before = self@;
        let id = match self.registry.register(path, name, now) {
            Some(id) => id,
            None => {
                return Err(IndexError::RegistryFull);
            },
        };
        let ghost repos = self.registry@;
        proof {
            lemma_by_path(before.repos, path@, 0);
            lemma_by_id(repos, id, 0);
            lemma_by_path(repos, path@, 0);
            let a = by_path(repos, path@, 0);
            let b = by_id(repos, id, 0);
            if a < b {
                assert(repos[a].id != id);
            }
            if b < a {
                assert(repos[b].id != repos[a].id);
            }
        }
        if let Some(i) = self.registry.find_id(id) {
            let generation = self.registry.get(i).generation;
            self.registry.mark(i, now, generation);
        }
        proof {
            let marked = self.registry@;
            lemma_by_path(repos, path@, 0);
            lemma_by_path(marked, path@, 0);
            assert(forall|k: int| 0 <= k < repos.len() ==> (#[trigger] marked[k]).root_path
                == repos[k].root_path);
            let a = by_path(repos, path@, 0);
            let b = by_path(marked, path@, 0);
            if b < a {
                assert(marked[b].root_path == repos[b].root_path);
            }
            if a < b {
                assert(marked[a].root_path == repos[a].root_path);
            }
        }
        let sync = self.corpus.sync(&self.chunking, id, files);
        Ok(IndexReport { repo_id: id, sync })
    }

    /// Updates the repository `repo_id` with the files `files`. Fails,
    /// and changes nothing, only where no such repository is registered.
    pub fn update(&mut self, repo_id: u64, files: Vec<FileEntry>, now: u64) -> (r: Result<
        SyncReport,
        IndexError,
    >)
        requires
            old(self)@.wf(),
        ensures
            final(self)@.wf(),
            r is Ok <==> by_id(old(self)@.repos, repo_id, 0) < old(self)@.repos.len(),
            match r {
                Ok(report) => {
                    &&& final(self)@ == old(self)@.updated(
                        by_id(old(self)@.repos, repo_id, 0),
                        views(files@),
                        now,
                    )
                    &&& report@ == old(self)@.corpus.sync_report(
                        old(self)@.chunking,
                        repo_id,
                        views(files@),
                    )
                },
                Err(e) => e == IndexError::UnknownRepository && final(self)@ == old(self)@,
            },
    {
        proof {
            lemma_by_id(self@.repos, repo_id, 0);
        }
        let i = match self.registry.find_id(repo_id) {
            Some(i) => i,
            None => {
                return Err(IndexError::UnknownRepository);
            },
        };
        let generation = self.registry.get(i).generation;
        self.registry.mark(i, now, generation);
        let sync = self.corpus.sync(&self.chunking, repo_id, files);
        Ok(sync)
    }

    /// Removes the repository at the root path `path` with all its
    /// documents, chunks and vectors. Without `force` nothing is removed
    /// and the result is `Ok(false)`. Fails only where no repository
    /// is registered at `path`.
    pub fn remove(&mut self, path: &[u8], force: bool) -> (r: Result<bool, IndexError>)
        requires
            old(self)@.wf(),
        ensures
            final(self)@.wf(),
            r is Ok <==> by_path(old(self)@.repos, path@, 0) < old(self)@.repos.len(),
            match r {
                Ok(done) => done == force && final(self)@ == if force {
                    old(self)@.removed(by_path(old(self)@.repos, path@, 0))
                } else {
                    old(self)@
                },
                Err(e) => e == IndexError::UnknownRepository && final(self)@ == old(self)@,
            },
    {
        let i = match self.registry.find_path(path) {
            Some(i) => i,
            None => {
                return Err(IndexError::UnknownRepository);
            },
        };
        if !force {
            return Ok(false);
        }
        let id = self.registry.get(i).id;
        self.corpus.drop(&Scope::Repository(id));
        self.registry.remove(i);
        Ok(true)
    }
}

/// The repositories that a rebuild has not reached stay as they were.
pub proof fn lemma_bumped(repos: Seq<RepositoryView>, target: Option<u64>, n: int)
    requires
        0 <= n <= repos.len(),
    ensures
        IndexerView::bumped(repos, target, n).len() == repos.len(),
        forall|k: int| n <= k < repos.len() ==> IndexerView::bumped(repos, target, n)[k] == repos[k],
        forall|k: int|
            0 <= k < repos.len() ==> (#[trigger] IndexerView::bumped(repos, target, n)[k]).id
                == repos[k].id && IndexerView::bumped(repos, target, n)[k].root_path
                == repos[k].root_path,
    decreases n,
{
    if n > 0 {
        lemma_bumped(repos, target, n - 1);
    }
}

impl Indexer {
    /// Answers a search over the corpus.
    pub fn search(&self, searcher: &Searcher, request: &SearchRequest, vector: Option<&QueryVector>)
        -> (r: Result<SearchOutcome, QueryError>)
        requires
            self@.wf(),
        ensures
            match r {
                Ok(o) => answer(
                    self@.corpus.lexical,
                    self@.corpus.vectors,
                    searcher.smoothing,
                    request.query@,
                    request.mode,
                    request.filters,
                    request.limit,
                    request.group_by_repo,
                    match vector {
                        Some(v) => Some((v.model_id@, v.vector@)),
                        None => None,
                    },
                ) == Ok::<(Seq<SearchResultView>, bool), QueryError>((views(o.results@), o.degraded)),
                Err(e) => answer(
                    self@.corpus.lexical,
                    self@.corpus.vectors,
                    searcher.smoothing,
                    request.query@,
                    request.mode,
                    request.filters,
                    request.limit,
                    request.group_by_repo,
                    match vector {
                        Some(v) => Some((v.model_id@, v.vector@)),
                        None => None,
                    },
                ) == Err::<(Seq<SearchResultView>, bool), QueryError>(e),
            },
    {
        searcher.search(self.corpus.lexical(), self.corpus.vectors(), request, vector)
    }

    /// Applies a batch of the watcher to its repository. `files` holds the
    /// files that the batch says were created or modified, as they are
    /// now, or all files of the repository where the batch asks for a
    /// full rescan. Fails, and changes nothing, only where the batch's
    /// repository is not registered.
    pub fn apply(&mut self, batch: &RepoBatch, files: Vec<FileEntry>, now: u64) -> (r: Result<
        SyncReport,
        IndexError,
    >)
        requires
            old(self)@.wf(),
        ensures
            final(self)@.wf(),
            r is Ok <==> by_id(old(self)@.repos, batch.repo_id, 0) < old(self)@.repos.len(),
            match r {
                Ok(report) => {
                    &&& final(self)@ == old(self)@.applied(
                        by_id(old(self)@.repos, batch.repo_id, 0),
                        batch@,
                        views(files@),
                        now,
                    )
                    &&& report@ == old(self)@.apply_report(
                        by_id(old(self)@.repos, batch.repo_id, 0),
                        batch@,
                        views(files@),
                    )
                },
                Err(e) => e == IndexError::UnknownRepository && final(self)@ == old(self)@,
            },
    {
        proof {
            lemma_by_id(self@.repos, batch.repo_id, 0);
        }
        if batch.full_rescan {
            return self.update(batch.repo_id, files, now);
        }
        let i = match self.registry.find_id(batch.repo_id) {
            Some(i) => i,
            None => {
                return Err(IndexError::UnknownRepository);
            },
        };
        let repo_id = batch.repo_id;
        let generation = self.registry.get(i).generation;
        self.registry.mark(i, now, generation);
        let ghost start = self.corpus@;
        let ghost changes = views(batch.changes@);
        let mut removed: usize = 0;
        let mut n: usize = 0;
        while n < batch.changes.len()
            invariant
                n <= batch.changes.len(),
                removed <= n,
                changes == views(batch.changes@),
                self.corpus@.wf(),
                self.corpus@ == start.cleared(repo_id, changes, n as int),
                removed == IndexerView::deletions(changes, n as int),
                self.registry@ == Registry::marked(old(self)@.repos, i as int, now, generation),
                self.registry.wf(),
                self.registry.next_id() == old(self)@.next_repo_id,
                self.chunking == old(self)@.chunking,
            decreases batch.changes.len() - n,
        {
            assert(changes[n as int] == batch.changes[n as int]@);
            if batch.changes[n].change == ChangeType::Deleted {
                let scope = Scope::Document(repo_id, copy_bytes(&batch.changes[n].path));
                self.corpus.drop(&scope);
                removed += 1;
            }
            n += 1;
        }
        let ghost base = self.corpus@;
        let ghost fv = views(files@);
        let mut queue: Vec<TextChunk> = Vec::new();
        let mut changed: usize = 0;
        let count = files.len();
        let mut k: usize = 0;
        assert(views(queue@) =~= base.queued(self.chunking, repo_id, fv, 0));
        for f in it: files
            invariant
                k == it.index(),
                it.seq() == files@,
                it.seq().len() == count,
                fv == views(files@),
                self.chunking.wf(),
                changed <= k,
                self.corpus@.wf(),
                self.corpus@ == base.with_files(self.chunking, repo_id, fv, k as int),
                changed == base.taken(self.chunking, repo_id, fv, k as int),
                views(queue@) == base.queued(self.chunking, repo_id, fv, k as int),
                self.registry@ == Registry::marked(old(self)@.repos, i as int, now, generation),
                self.registry.wf(),
                self.registry.next_id() == old(self)@.next_repo_id,
                self.chunking == old(self)@.chunking,
        {
            assert(fv[k as int] == f@);
            if self.corpus.put(&self.chunking, repo_id, f, &mut queue) {
                changed += 1;
            }
            k += 1;
        }
        Ok(SyncReport { changed, removed, queue })
    }

    /// Begins a rebuild of the embeddings of the repository `target`, or
    /// of all repositories where none is given. Each repository of the
    /// rebuild moves to its next generation, so that vectors that come
    /// back for an earlier rebuild are dropped, and gets a job with the
    /// texts of all its chunks.
    pub fn rebuild_embeddings(&mut self, target: Option<u64>) -> (jobs: Vec<RebuildJob>)
        requires
            old(self)@.wf(),
        ensures
            final(self)@.wf(),
            final(self)@ == (IndexerView {
                repos: IndexerView::bumped(
                    old(self)@.repos,
                    target,
                    old(self)@.repos.len() as int,
                ),
                ..old(self)@
            }),
            views(jobs@) == old(self)@.jobs(target, old(self)@.repos.len() as int),
    {
        let ghost start = self@;
        let mut jobs: Vec<RebuildJob> = Vec::new();
        let count = self.registry.list().len();
        let mut n: usize = 0;
        assert(views(jobs@) =~= start.jobs(target, 0));
        while n < count
            invariant
                n <= count,
                count == start.repos.len(),
                start == old(self)@,
                self.registry.wf(),
                self.registry.next_id() == start.next_repo_id,
                self.registry@ == IndexerView::bumped(start.repos, target, n as int),
                self.corpus@ == start.corpus,
                self.chunking == start.chunking,
                views(jobs@) == start.jobs(target, n as int),
            decreases count - n,
        {
            proof {
                lemma_bumped(start.repos, target, n as int);
            }
            let repo = self.registry.get(n);
            let id = repo.id;
            let hit = match target {
                Some(t) => t == id,
                None => true,
            };
            if hit {
                let generation = repo.generation.wrapping_add(1);
                let indexed_at = repo.last_indexed_at;
                self.registry.mark(n, indexed_at, generation);
                let ghost before = views(jobs@);
                let job = RebuildJob { repo_id: id, generation, chunks: self.corpus.texts(id) };
                let ghost jv = job@;
                jobs.push(job);
                assert(views(jobs@) =~= before.push(jv));
                assert(self.registry@ =~= IndexerView::bumped(start.repos, target, n + 1));
            }
            n += 1;
        }
        jobs
    }

    /// Takes in the embeddings that came back for the repository
    /// `repo_id` under the generation `generation`, and says how many
    /// were stored. Embeddings of an earlier generation than the
    /// repository stands at are dropped. Fails only where the repository
    /// is not registered.
    pub fn store_embeddings(&mut self, repo_id: u64, generation: u64, embeddings: Vec<ChunkEmbedding>)
        -> (r: Result<usize, IndexError>)
        requires
            old(self)@.wf(),
        ensures
            final(self)@.wf(),
            r is Ok <==> by_id(old(self)@.repos, repo_id, 0) < old(self)@.repos.len(),
            match r {
                Ok(stored) => {
                    let i = by_id(old(self)@.repos, repo_id, 0);
                    &&& final(self)@ == old(self)@.embedded(i, generation, views(embeddings@))
                    &&& stored == if old(self)@.repos[i].generation == generation {
                        old(self)@.corpus.accepted(repo_id, views(embeddings@), embeddings.len() as int)
                    } else {
                        0
                    }
                },
                Err(e) => e == IndexError::UnknownRepository && final(self)@ == old(self)@,
            },
    {
        proof {
            lemma_by_id(self@.repos, repo_id, 0);
        }
        let i = match self.registry.find_id(repo_id) {
            Some(i) => i,
            None => {
                return Err(IndexError::UnknownRepository);
            },
        };
        if self.registry.get(i).generation != generation {
            return Ok(0);
        }
        let ghost base = self.corpus@;
        let ghost ev = views(embeddings@);
        let count = embeddings.len();
        let mut stored: usize = 0;
        let mut k: usize = 0;
        for e in it: embeddings
            invariant
                k == it.index(),
                it.seq() == embeddings@,
                it.seq().len() == count,
                ev == views(embeddings@),
                stored <= k,
                self.corpus@.wf(),
                self.corpus@ == base.with_embeddings(repo_id, ev, k as int),
                stored == base.accepted(repo_id, ev, k as int),
                self.registry@ == old(self)@.repos,
                self.registry.next_id() == old(self)@.next_repo_id,
                self.chunking == old(self)@.chunking,
        {
            assert(ev[k as int] == e@);
            if self.corpus.store(repo_id, e) {
                stored += 1;
            }
            k += 1;
        }
        Ok(stored)
    }
}

/// Whether no two of the files have one path.
pub open spec fn distinct_paths(files: Seq<FileEntryView>) -> bool {
    forall|i: int, j: int|
        0 <= i < j < files.len() ==> (#[trigger] files[i]).path != (#[trigger] files[j]).path
}

/// Whether there are chunk ids left for each of the first `n` files as
/// it is shown to the corpus.
pub open spec fn fits(
    c: CorpusView,
    cfg: ChunkConfig,
    repo_id: u64,
    files: Seq<FileEntryView>,
    n: int,
) -> bool {
    forall|m: int|
        0 <= m < n ==> (#[trigger] c.with_files(cfg, repo_id, files, m)).next_chunk_id + chunking(
            files[m].content,
            files[m].kind,
            cfg,
        ).len() <= u64::MAX
}

/// Whether every document of repository `repo_id` has its file among
/// `files`.
pub open spec fn all_listed(docs: Seq<DocumentView>, repo_id: u64, files: Seq<FileEntryView>) -> bool {
    forall|k: int| 0 <= k < docs.len() ==> !CorpusView::stale(#[trigger] docs[k], repo_id, files)
}

/// Whether each of the first `n` files is indexed with its content hash.
pub open spec fn all_known(
    docs: Seq<DocumentView>,
    repo_id: u64,
    files: Seq<FileEntryView>,
    n: int,
) -> bool {
    forall|i: int|
        0 <= i < n ==> known(docs, repo_id, (#[trigger] files[i]).path, content_hash(files[i].content))
}

/// Pruning leaves no document of the repository without its file, and
/// takes none that has one.
pub proof fn lemma_pruned(
    c: CorpusView,
    docs: Seq<DocumentView>,
    repo_id: u64,
    files: Seq<FileEntryView>,
    n: int,
)
    requires
        0 <= n <= docs.len(),
    ensures
        forall|x: DocumentView|
            #[trigger] c.pruned(docs, repo_id, files, n).documents.contains(x) ==> c.documents.contains(
                x,
            ) && forall|k: int|
                0 <= k < n && CorpusView::stale(#[trigger] docs[k], repo_id, files) ==> !(x.repo_id
                    == repo_id && x.path == docs[k].path),
    decreases n,
{
    if n > 0 {
        lemma_pruned(c, docs, repo_id, files, n - 1);
        let prev = c.pruned(docs, repo_id, files, n - 1);
        let next = c.pruned(docs, repo_id, files, n);
        if CorpusView::stale(docs[n - 1], repo_id, files) {
            let scope = ScopeView::Document(repo_id, docs[n - 1].path);
            let keep = outside::<Document>(scope);
            lemma_filter_all(prev.documents, keep, |d: DocumentView| true);
            assert forall|x: DocumentView| #[trigger] next.documents.contains(x) implies c.documents.contains(
                x,
            ) && forall|k: int|
                0 <= k < n && CorpusView::stale(#[trigger] docs[k], repo_id, files) ==> !(x.repo_id
                    == repo_id && x.path == docs[k].path) by {
                prev.documents.lemma_filter_contains_rev(keep, x);
                let i = choose|i: int| 0 <= i < next.documents.len() && next.documents[i] == x;
                assert(keep(next.documents[i]));
            }
        }
    }
}

/// After pruning every document of the repository has its file.
pub proof fn lemma_pruned_all_listed(c: CorpusView, repo_id: u64, files: Seq<FileEntryView>)
    ensures
        all_listed(
            c.pruned(c.documents, repo_id, files, c.documents.len() as int).documents,
            repo_id,
            files,
        ),
{
    let r = c.pruned(c.documents, repo_id, files, c.documents.len() as int);
    lemma_pruned(c, c.documents, repo_id, files, c.documents.len() as int);
    assert forall|k: int| 0 <= k < r.documents.len() implies !CorpusView::stale(
        #[trigger] r.documents[k],
        repo_id,
        files,
    ) by {
        let x = r.documents[k];
        assert(r.documents.contains(x));
        if CorpusView::stale(x, repo_id, files) {
            let k0 = choose|k0: int| 0 <= k0 < c.documents.len() && c.documents[k0] == x;
            assert(CorpusView::stale(c.documents[k0], repo_id, files));
        }
    }
}

/// Showing files to a corpus in which every document of the repository
/// has its file leaves it so, and where the files have paths of their own
/// and ids do not run out, each file shown is then indexed with its
/// content hash.
pub proof fn lemma_with_files_known(
    c: CorpusView,
    cfg: ChunkConfig,
    repo_id: u64,
    files: Seq<FileEntryView>,
    n: int,
)
    requires
        0 <= n <= files.len(),
        all_listed(c.documents, repo_id, files),
        distinct_paths(files),
        fits(c, cfg, repo_id, files, n),
    ensures
        all_listed(c.with_files(cfg, repo_id, files, n).documents, repo_id, files),
        all_known(c.with_files(cfg, repo_id, files, n).documents, repo_id, files, n),
    decreases n,
{
    if n > 0 {
        assert(fits(c, cfg, repo_id, files, n - 1));
        lemma_with_files_known(c, cfg, repo_id, files, n - 1);
        let prev = c.with_files(cfg, repo_id, files, n - 1);
        let next = c.with_files(cfg, repo_id, files, n);
        let f = files[n - 1];
        assert(prev.next_chunk_id + chunking(f.content, f.kind, cfg).len() <= u64::MAX);
        if prev.takes(cfg, repo_id, f) {
            let scope = ScopeView::Document(repo_id, f.path);
            let keep = outside::<Document>(scope);
            let kept = prev.documents.filter(keep);
            lemma_filter_all(
                prev.documents,
                keep,
                |d: DocumentView| !CorpusView::stale(d, repo_id, files),
            );
            assert forall|k: int| 0 <= k < next.documents.len() implies !CorpusView::stale(
                #[trigger] next.documents[k],
                repo_id,
                files,
            ) by {
                if k < kept.len() {
                    assert(next.documents[k] == kept[k]);
                } else {
                    assert(next.documents[k].path == files[n - 1].path);
                }
            }
            assert forall|i: int| 0 <= i < n implies known(
                next.documents,
                repo_id,
                (#[trigger] files[i]).path,
                content_hash(files[i].content),
            ) by {
                if i < n - 1 {
                    let k0 = choose|k0: int|
                        0 <= k0 < prev.documents.len() && (#[trigger] prev.documents[k0]).repo_id
                            == repo_id && prev.documents[k0].path == files[i].path
                            && prev.documents[k0].content_hash == content_hash(files[i].content);
                    assert(files[i].path != files[n - 1].path);
                    lemma_filter_holds(prev.documents, keep, k0);
                    let k = choose|k: int| 0 <= k < kept.len() && kept[k] == prev.documents[k0];
                    assert(next.documents[k] == kept[k]);
                } else {
                    assert(next.documents[next.documents.len() - 1].path == files[i].path);
                }
            }
        } else {
            assert forall|i: int| 0 <= i < n implies known(
                next.documents,
                repo_id,
                (#[trigger] files[i]).path,
                content_hash(files[i].content),
            ) by {}
        }
    }
}

/// Indexing a repository twice with the same files is the same as
/// indexing it once: where the files have paths of their own and the
/// chunk ids do not run out, the second time changes nothing, no
/// document counts as changed or removed, and nothing is queued for
/// embedding.
pub proof fn lemma_sync_is_idempotent(
    c: CorpusView,
    cfg: ChunkConfig,
    repo_id: u64,
    files: Seq<FileEntryView>,
)
    requires
        distinct_paths(files),
        fits(
            c.pruned(c.documents, repo_id, files, c.documents.len() as int),
            cfg,
            repo_id,
            files,
            files.len() as int,
        ),
    ensures
        ({
            let once = c.synced(cfg, repo_id, files);
            &&& once.synced(cfg, repo_id, files) == once
            &&& once.queued(cfg, repo_id, files, files.len() as int).len() == 0
            &&& once.taken(cfg, repo_id, files, files.len() as int) == 0
            &&& CorpusView::stale_count(once.documents, repo_id, files, once.documents.len() as int)
                == 0
        }),
{
    let base = c.pruned(c.documents, repo_id, files, c.documents.len() as int);
    lemma_pruned_all_listed(c, repo_id, files);
    lemma_with_files_known(base, cfg, repo_id, files, files.len() as int);
    lemma_resync_is_idle(c.synced(cfg, repo_id, files), cfg, repo_id, files);
}

} // verus!
