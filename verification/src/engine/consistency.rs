//! How documents, chunks and vectors hang together: every chunk belongs to
//! one document, every vector to one chunk, and each operation of the
//! indexer keeps it so.

use vstd::prelude::*;
use crate::engine::chunker::{ChunkConfig, chunking};
use crate::engine::embedder::ChunkEmbeddingView;
use crate::engine::indexer::{CorpusView, Document, DocumentView, FileEntryView};
use crate::engine::lexical::{Entry, EntryView, by_chunk, entries_of, lemma_by_chunk};
use crate::engine::model::{
    ScopeView, lemma_filter_all, lemma_filter_holds, lemma_filter_pairs, outside,
};
use crate::engine::vectors::{StoredVector, StoredVectorView, not_among, stored_as};

verus! {

/// Whether the document `d` is the one that the chunk `e` belongs to.
pub open spec fn houses(d: DocumentView, e: EntryView) -> bool {
    d.repo_id == e.meta.repo_id && d.path == e.meta.path
}

/// Whether one of the documents is the one that the chunk `e` belongs
/// to.
pub open spec fn has_document(docs: Seq<DocumentView>, e: EntryView) -> bool {
    exists|k: int| 0 <= k < docs.len() && houses(#[trigger] docs[k], e)
}

/// Whether one of the chunks is the one that the vector `v` belongs to:
/// the two share their identity.
pub open spec fn has_chunk(lexical: Seq<EntryView>, v: StoredVectorView) -> bool {
    exists|j: int| 0 <= j < lexical.len() && (#[trigger] lexical[j]).meta == v.meta
}

/// Whether every chunk belongs to a document.
pub open spec fn housed(c: CorpusView) -> bool {
    forall|j: int| 0 <= j < c.lexical.len() ==> has_document(c.documents, #[trigger] c.lexical[j])
}

/// Whether every vector belongs to a chunk.
pub open spec fn anchored(c: CorpusView) -> bool {
    forall|i: int| 0 <= i < c.vectors.len() ==> has_chunk(c.lexical, #[trigger] c.vectors[i])
}

/// Whether two chunks have ids of their own.
pub open spec fn apart(a: EntryView, b: EntryView) -> bool {
    a.meta.chunk_id != b.meta.chunk_id
}

/// Whether the chunks have ids of their own, all below the next id.
pub open spec fn distinct_chunks(c: CorpusView) -> bool {
    &&& forall|i: int, j: int|
        0 <= i < j < c.lexical.len() ==> #[trigger] apart(c.lexical[i], c.lexical[j])
    &&& forall|i: int|
        0 <= i < c.lexical.len() ==> (#[trigger] c.lexical[i]).meta.chunk_id < c.next_chunk_id
}

/// Whether two documents are of different files.
pub open spec fn elsewhere(a: DocumentView, b: DocumentView) -> bool {
    !(a.repo_id == b.repo_id && a.path == b.path)
}

/// Whether no two documents are of one file.
pub open spec fn distinct_documents(c: CorpusView) -> bool {
    forall|i: int, j: int|
        0 <= i < j < c.documents.len() ==> #[trigger] elsewhere(c.documents[i], c.documents[j])
}

/// Whether the corpus hangs together: every chunk belongs to exactly one
/// document and every vector to exactly one chunk.
pub open spec fn consistent(c: CorpusView) -> bool {
    housed(c) && anchored(c) && distinct_chunks(c) && distinct_documents(c)
}

/// Taking a scope out of a corpus keeps it together.
pub proof fn lemma_without_consistent(c: CorpusView, scope: ScopeView)
    requires
        consistent(c),
    ensures
        consistent(c.without(scope)),
{
    let r = c.without(scope);
    let keep_d = outside::<Document>(scope);
    let keep_e = outside::<Entry>(scope);
    let keep_v = outside::<StoredVector>(scope);
    assert forall|j: int| 0 <= j < r.lexical.len() implies has_document(
        r.documents,
        #[trigger] r.lexical[j],
    ) by {
        let e = r.lexical[j];
        lemma_filter_all(c.lexical, keep_e, |x: EntryView| true);
        assert(r.lexical.contains(e));
        c.lexical.lemma_filter_contains_rev(keep_e, e);
        let j0 = choose|j0: int| 0 <= j0 < c.lexical.len() && c.lexical[j0] == e;
        assert(has_document(c.documents, c.lexical[j0]));
        let k0 = choose|k0: int| 0 <= k0 < c.documents.len() && houses(#[trigger] c.documents[k0], e);
        lemma_filter_holds(c.documents, keep_d, k0);
        let k = choose|k: int| 0 <= k < r.documents.len() && r.documents[k] == c.documents[k0];
        assert(houses(r.documents[k], e));
    }
    assert forall|i: int| 0 <= i < r.vectors.len() implies has_chunk(
        r.lexical,
        #[trigger] r.vectors[i],
    ) by {
        let v = r.vectors[i];
        lemma_filter_all(c.vectors, keep_v, |x: StoredVectorView| true);
        assert(r.vectors.contains(v));
        c.vectors.lemma_filter_contains_rev(keep_v, v);
        let i0 = choose|i0: int| 0 <= i0 < c.vectors.len() && c.vectors[i0] == v;
        assert(has_chunk(c.lexical, c.vectors[i0]));
        let j0 = choose|j0: int| 0 <= j0 < c.lexical.len() && (#[trigger] c.lexical[j0]).meta == v.meta;
        lemma_filter_holds(c.lexical, keep_e, j0);
        let j = choose|j: int| 0 <= j < r.lexical.len() && r.lexical[j] == c.lexical[j0];
        assert(r.lexical[j].meta == v.meta);
    }
    lemma_filter_pairs(c.lexical, keep_e, |a: EntryView, b: EntryView| apart(a, b));
    lemma_filter_all(
        c.lexical,
        keep_e,
        |x: EntryView| x.meta.chunk_id < c.next_chunk_id,
    );
    lemma_filter_pairs(c.documents, keep_d, |a: DocumentView, b: DocumentView| elsewhere(a, b));
}

/// Showing a file to a corpus keeps it together.
pub proof fn lemma_with_file_consistent(
    c: CorpusView,
    cfg: ChunkConfig,
    repo_id: u64,
    f: FileEntryView,
)
    requires
        consistent(c),
    ensures
        consistent(c.with_file(cfg, repo_id, f)),
{
    if c.takes(cfg, repo_id, f) {
        let scope = ScopeView::Document(repo_id, f.path);
        let base = c.without(scope);
        lemma_without_consistent(c, scope);
        let r = c.with_file(cfg, repo_id, f);
        let chunks = chunking(f.content, f.kind, cfg);
        let fresh = entries_of(repo_id, f.kind, f.path, c.next_chunk_id, chunks);
        let doc = r.documents.last();
        assert forall|j: int| 0 <= j < r.lexical.len() implies has_document(
            r.documents,
            #[trigger] r.lexical[j],
        ) by {
            if j < base.lexical.len() {
                assert(r.lexical[j] == base.lexical[j]);
                assert(has_document(base.documents, base.lexical[j]));
                let k = choose|k: int|
                    0 <= k < base.documents.len() && houses(
                        #[trigger] base.documents[k],
                        base.lexical[j],
                    );
                assert(r.documents[k] == base.documents[k]);
                assert(houses(r.documents[k], r.lexical[j]));
            } else {
                assert(r.lexical[j] == fresh[j - base.lexical.len()]);
                assert(houses(r.documents[r.documents.len() - 1], r.lexical[j]));
            }
        }
        assert forall|i: int| 0 <= i < r.vectors.len() implies has_chunk(
            r.lexical,
            #[trigger] r.vectors[i],
        ) by {
            assert(has_chunk(base.lexical, base.vectors[i]));
            let j = choose|j: int|
                0 <= j < base.lexical.len() && (#[trigger] base.lexical[j]).meta
                    == base.vectors[i].meta;
            assert(r.lexical[j] == base.lexical[j]);
        }
        assert forall|i: int, j: int| 0 <= i < j < r.lexical.len() implies #[trigger] apart(
            r.lexical[i],
            r.lexical[j],
        ) by {
            let n = base.lexical.len();
            if j < n {
                assert(apart(base.lexical[i], base.lexical[j]));
            } else if i < n {
                assert(r.lexical[i] == base.lexical[i]);
                assert(r.lexical[j] == fresh[j - n]);
            } else {
                assert(r.lexical[i] == fresh[i - n]);
                assert(r.lexical[j] == fresh[j - n]);
            }
        }
        assert forall|i: int| 0 <= i < r.lexical.len() implies (#[trigger] r.lexical[i]).meta.chunk_id
            < r.next_chunk_id by {
            let n = base.lexical.len();
            if i < n {
                assert(r.lexical[i] == base.lexical[i]);
            } else {
                assert(r.lexical[i] == fresh[i - n]);
            }
        }
        lemma_filter_all(c.documents, outside::<Document>(scope), |d: DocumentView| true);
        assert forall|i: int, j: int| 0 <= i < j < r.documents.len() implies #[trigger] elsewhere(
            r.documents[i],
            r.documents[j],
        ) by {
            assert(r.documents[i] == base.documents[i]);
            if j < base.documents.len() {
                assert(elsewhere(base.documents[i], base.documents[j]));
            } else {
                assert(outside::<Document>(scope)(base.documents[i]));
            }
        }
    }
}

/// Handing an embedding to a corpus keeps it together.
pub proof fn lemma_with_embedding_consistent(c: CorpusView, repo_id: u64, e: ChunkEmbeddingView)
    requires
        consistent(c),
    ensures
        consistent(c.with_embedding(repo_id, e)),
{
    if c.accepts(repo_id, e) {
        let r = c.with_embedding(repo_id, e);
        let keep = not_among(seq![e.chunk_id]);
        let kept = c.vectors.filter(keep);
        let j0 = by_chunk(c.lexical, e.chunk_id, 0);
        lemma_by_chunk(c.lexical, e.chunk_id, 0);
        assert forall|i: int| 0 <= i < r.vectors.len() implies has_chunk(
            r.lexical,
            #[trigger] r.vectors[i],
        ) by {
            if i < kept.len() {
                let v = kept[i];
                assert(r.vectors[i] == v);
                assert(kept.contains(v));
                c.vectors.lemma_filter_contains_rev(keep, v);
                let i0 = choose|i0: int| 0 <= i0 < c.vectors.len() && c.vectors[i0] == v;
                assert(has_chunk(c.lexical, c.vectors[i0]));
            } else {
                assert(r.vectors[i] == stored_as(c.lexical[j0].meta, e));
                assert(r.lexical[j0].meta == r.vectors[i].meta);
            }
        }
    }
}

/// In a corpus that hangs together every vector is the only one of its
/// chunk's entry, which is the only entry of that chunk id, and every
/// entry has exactly one document.
pub proof fn lemma_exactly_one(c: CorpusView, j: int)
    requires
        consistent(c),
        0 <= j < c.lexical.len(),
    ensures
        by_chunk(c.lexical, c.lexical[j].meta.chunk_id, 0) == j,
        has_document(c.documents, c.lexical[j]),
        forall|k1: int, k2: int|
            0 <= k1 < c.documents.len() && 0 <= k2 < c.documents.len() && houses(
                c.documents[k1],
                c.lexical[j],
            ) && houses(c.documents[k2], c.lexical[j]) ==> k1 == k2,
{
    lemma_by_chunk(c.lexical, c.lexical[j].meta.chunk_id, 0);
    let first = by_chunk(c.lexical, c.lexical[j].meta.chunk_id, 0);
    if first < j {
        assert(apart(c.lexical[first], c.lexical[j]));
    }
    assert forall|k1: int, k2: int|
        0 <= k1 < c.documents.len() && 0 <= k2 < c.documents.len() && houses(
            c.documents[k1],
            c.lexical[j],
        ) && houses(c.documents[k2], c.lexical[j]) implies k1 == k2 by {
        if k1 < k2 {
            assert(elsewhere(c.documents[k1], c.documents[k2]));
        }
        if k2 < k1 {
            assert(elsewhere(c.documents[k2], c.documents[k1]));
        }
    }
}

} // verus!
