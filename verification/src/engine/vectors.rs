//! The embedding store: one vector per chunk, stamped with the model that
//! made it, and nearest-neighbour search by cosine similarity.

use vstd::prelude::*;
use crate::engine::embedder::{
    ChunkEmbedding, ChunkEmbeddingView, EmbedError, MAX_DIMENSION, MAX_DOT, dot, dot_product,
    lemma_dot_bound, norm_sq,
};
use crate::engine::model::{
    Filters, Located, Meta, MetaView, Scope, drop_scope, lemma_filter_all, lemma_filter_pairs,
    lemma_tie_order, limited, outside, tie_before,
};
use crate::engine::rank::{
    RankLaws, Ranked, all_decided, in_rank_order, lemma_ranked_in_order, lemma_ranked_permutes,
    lemma_ranked_strict, lemma_ranking_unique, lemma_ratio_order, ranked, ratio_above,
    sort_ranked, strictly_ranked,
};
use crate::engine::text::{bytes_eq, views};

verus! {

/// One vector as the store holds it, with the squared length of the vector.
#[derive(Debug)]
pub struct StoredVector {
    pub meta: Meta,
    pub model_id: Vec<u8>,
    pub vector: Vec<i16>,
    pub norm_sq: u64,
}

/// A `StoredVector` as contracts see it.
pub struct StoredVectorView {
    pub meta: MetaView,
    pub model_id: Seq<u8>,
    pub vector: Seq<i16>,
    pub norm_sq: u64,
}

impl View for StoredVector {
    type V = StoredVectorView;

    open spec fn view(&self) -> StoredVectorView {
        StoredVectorView {
            meta: self.meta@,
            model_id: self.model_id@,
            vector: self.vector@,
            norm_sq: self.norm_sq,
        }
    }
}

impl StoredVectorView {
    /// A stored vector is sound where its dimension lies between 1 and
    /// `MAX_DIMENSION` and it holds its own squared length.
    pub open spec fn wf(self) -> bool {
        1 <= self.vector.len() <= MAX_DIMENSION && self.norm_sq == norm_sq(self.vector)
    }
}

impl Located for StoredVector {
    open spec fn repo_of(a: StoredVectorView) -> u64 {
        a.meta.repo_id
    }

    open spec fn path_of(a: StoredVectorView) -> Seq<u8> {
        a.meta.path
    }

    fn repo(&self) -> (r: u64) {
        self.meta.repo_id
    }

    fn path(&self) -> (p: &Vec<u8>) {
        &self.meta.path
    }
}

/// One result of a nearest-neighbour search: the chunk, the dot product of
/// its vector with the query vector and the squared lengths of the two.
/// The cosine similarity is `dot / sqrt(norm_sq * query_norm_sq)`.
#[derive(Debug)]
pub struct Neighbor {
    pub meta: Meta,
    pub dot: i64,
    pub norm_sq: u64,
    pub query_norm_sq: u64,
}

/// A `Neighbor` as contracts see it.
pub struct NeighborView {
    pub meta: MetaView,
    pub dot: i64,
    pub norm_sq: u64,
    pub query_norm_sq: u64,
}

impl View for Neighbor {
    type V = NeighborView;

    open spec fn view(&self) -> NeighborView {
        NeighborView {
            meta: self.meta@,
            dot: self.dot,
            norm_sq: self.norm_sq,
            query_norm_sq: self.query_norm_sq,
        }
    }
}

/// The square of a dot product with the dot product's sign, zero for a
/// vector of length zero.
pub open spec fn signed_square_of(dot: i64, norm_sq: u64) -> int {
    if norm_sq == 0 {
        0
    } else if dot >= 0 {
        dot * dot
    } else {
        -(dot * dot)
    }
}

impl NeighborView {
    /// The numerator by which neighbours of one query are ordered: the
    /// square of the dot product with the dot product's sign, which over
    /// `den` grows exactly as the cosine does. A vector of length zero has
    /// the cosine zero.
    pub open spec fn num(self) -> int {
        signed_square_of(self.dot, self.norm_sq)
    }

    /// The denominator that goes with `num`: the squared length of the
    /// stored vector.
    pub open spec fn den(self) -> int {
        if self.norm_sq == 0 {
            1
        } else {
            self.norm_sq as int
        }
    }
}

/// The bounds within which neighbours are compared.
pub proof fn lemma_neighbor_bounds(a: NeighborView)
    requires
        Neighbor::rankable(a),
    ensures
        -0x10_0000_0000_0000_0000_0000 <= a.num() <= 0x10_0000_0000_0000_0000_0000,
        0 < a.den() <= MAX_DOT,
{
    let d = a.dot as int;
    assert(0 <= d * d <= 0x400_0000_0000 * 0x400_0000_0000) by (nonlinear_arith)
        requires
            -0x400_0000_0000 <= d <= 0x400_0000_0000,
    ;
}

impl Ranked for Neighbor {
    open spec fn rankable(a: NeighborView) -> bool {
        -MAX_DOT <= a.dot <= MAX_DOT && a.norm_sq <= MAX_DOT
    }

    /// The higher cosine similarity first; equal ones by the tie-break.
    open spec fn outranks(a: NeighborView, b: NeighborView) -> bool {
        ratio_above(a.num(), a.den(), b.num(), b.den()) || (a.num() * b.den() == b.num() * a.den()
            && tie_before(a.meta, b.meta))
    }

    fn ranks_before(&self, other: &Neighbor) -> (r: bool) {
        proof {
            lemma_neighbor_bounds(self@);
            lemma_neighbor_bounds(other@);
        }
        let na: i128 = signed_square(self.dot, self.norm_sq);
        let nb: i128 = signed_square(other.dot, other.norm_sq);
        let da: i128 = if self.norm_sq == 0 {
            1
        } else {
            self.norm_sq as i128
        };
        let db: i128 = if other.norm_sq == 0 {
            1
        } else {
            other.norm_sq as i128
        };
        proof {
            assert(-0x10_0000_0000_0000_0000_0000 * 0x400_0000_0000 <= na * db
                <= 0x10_0000_0000_0000_0000_0000 * 0x400_0000_0000) by (nonlinear_arith)
                requires
                    -0x10_0000_0000_0000_0000_0000 <= na <= 0x10_0000_0000_0000_0000_0000,
                    0 < db <= 0x400_0000_0000,
            ;
            assert(-0x10_0000_0000_0000_0000_0000 * 0x400_0000_0000 <= nb * da
                <= 0x10_0000_0000_0000_0000_0000 * 0x400_0000_0000) by (nonlinear_arith)
                requires
                    -0x10_0000_0000_0000_0000_0000 <= nb <= 0x10_0000_0000_0000_0000_0000,
                    0 < da <= 0x400_0000_0000,
            ;
        }
        let left: i128 = na * db;
        let right: i128 = nb * da;
        if left != right {
            left > right
        } else {
            self.meta.ties_before(&other.meta)
        }
    }
}

/// Computes the square of a dot product with the dot product's sign.
pub fn signed_square(dot: i64, norm_sq: u64) -> (n: i128)
    requires
        -MAX_DOT <= dot <= MAX_DOT,
    ensures
        n == signed_square_of(dot, norm_sq),
{
    let d: i128 = dot as i128;
    assert(0 <= d * d <= 0x400_0000_0000 * 0x400_0000_0000) by (nonlinear_arith)
        requires
            -0x400_0000_0000 <= d <= 0x400_0000_0000,
    ;
    if norm_sq == 0 {
        0
    } else if dot >= 0 {
        d * d
    } else {
        -(d * d)
    }
}

impl RankLaws for Neighbor {
    proof fn lemma_asymmetric(a: NeighborView, b: NeighborView) {
        lemma_tie_order(a.meta, b.meta, a.meta);
    }

    proof fn lemma_not_before_chain(a: NeighborView, b: NeighborView, c: NeighborView) {
        lemma_neighbor_bounds(a);
        lemma_neighbor_bounds(b);
        lemma_neighbor_bounds(c);
        lemma_ratio_order(a.num(), a.den(), b.num(), b.den(), c.num(), c.den());
        lemma_tie_order(a.meta, b.meta, c.meta);
        lemma_tie_order(c.meta, b.meta, a.meta);
        lemma_tie_order(a.meta, c.meta, b.meta);
    }
}

/// Whether every stored vector of a sequence is sound.
pub open spec fn all_sound(s: Seq<StoredVectorView>) -> bool {
    forall|i: int| 0 <= i < s.len() ==> (#[trigger] s[i]).wf()
}

/// Whether the vectors of each model have one dimension.
pub open spec fn one_dimension(s: Seq<StoredVectorView>) -> bool {
    forall|i: int, j: int|
        0 <= i < s.len() && 0 <= j < s.len() && (#[trigger] s[i]).model_id == (
        #[trigger] s[j]).model_id ==> s[i].vector.len() == s[j].vector.len()
}

/// Whether two stored vectors are of different chunks.
pub open spec fn of_two_chunks(a: StoredVectorView, b: StoredVectorView) -> bool {
    a.meta.chunk_id != b.meta.chunk_id
}

/// Whether no chunk has two vectors.
pub open spec fn each_chunk_once(s: Seq<StoredVectorView>) -> bool {
    forall|i: int, j: int| 0 <= i < j < s.len() ==> #[trigger] of_two_chunks(s[i], s[j])
}

/// Whether a vector of `model` with dimension `dim` would stand beside one
/// of the same model and another dimension.
pub open spec fn clashes(s: Seq<StoredVectorView>, model: Seq<u8>, dim: int) -> bool {
    exists|i: int| 0 <= i < s.len() && (#[trigger] s[i]).model_id == model && s[i].vector.len() != dim
}

/// The stored vectors of chunks that are not among `ids`.
pub open spec fn not_among(ids: Seq<u64>) -> spec_fn(StoredVectorView) -> bool {
    |e: StoredVectorView| !ids.contains(e.meta.chunk_id)
}

/// The vector that the store holds for an embedding of the chunk `meta`.
pub open spec fn stored_as(meta: MetaView, e: ChunkEmbeddingView) -> StoredVectorView {
    StoredVectorView {
        meta,
        model_id: e.model_id,
        vector: e.vector,
        norm_sq: norm_sq(e.vector) as u64,
    }
}

/// Whether a stored vector takes part in a search: it was made by the
/// model of the query, has the query's dimension and passes the filters.
pub open spec fn eligible(e: StoredVectorView, query: Seq<i16>, model: Seq<u8>, f: Filters) -> bool {
    e.model_id == model && e.vector.len() == query.len() && f.admits(e.meta.repo_id, e.meta.kind)
}

/// The neighbour that a stored vector is to a query vector.
pub open spec fn neighbor_of(e: StoredVectorView, query: Seq<i16>) -> NeighborView {
    NeighborView {
        meta: e.meta,
        dot: dot(e.vector, query) as i64,
        norm_sq: e.norm_sq,
        query_norm_sq: norm_sq(query) as u64,
    }
}

/// The neighbours among the first `n` stored vectors, in their order.
pub open spec fn near_candidates(
    all: Seq<StoredVectorView>,
    n: int,
    query: Seq<i16>,
    model: Seq<u8>,
    f: Filters,
) -> Seq<NeighborView>
    decreases n,
{
    if n <= 0 {
        Seq::empty()
    } else {
        let rest = near_candidates(all, n - 1, query, model, f);
        if eligible(all[n - 1], query, model, f) {
            rest.push(neighbor_of(all[n - 1], query))
        } else {
            rest
        }
    }
}

/// The answer to a nearest-neighbour search: the eligible vectors, ranked
/// by cosine similarity to the query.
pub open spec fn nearest_to(
    all: Seq<StoredVectorView>,
    query: Seq<i16>,
    model: Seq<u8>,
    f: Filters,
) -> Seq<NeighborView> {
    ranked::<Neighbor>(near_candidates(all, all.len() as int, query, model, f))
}

/// Every neighbour among the candidates is that of an eligible vector.
pub proof fn lemma_near_candidates_eligible(
    all: Seq<StoredVectorView>,
    n: int,
    query: Seq<i16>,
    model: Seq<u8>,
    f: Filters,
    k: int,
) -> (i: int)
    requires
        n <= all.len(),
        0 <= k < near_candidates(all, n, query, model, f).len(),
    ensures
        0 <= i < n,
        eligible(all[i], query, model, f),
        near_candidates(all, n, query, model, f)[k] == neighbor_of(all[i], query),
    decreases n,
{
    let rest = near_candidates(all, n - 1, query, model, f);
    if eligible(all[n - 1], query, model, f) && k == rest.len() {
        n - 1
    } else {
        lemma_near_candidates_eligible(all, n - 1, query, model, f, k)
    }
}

/// A nearest-neighbour search returns nothing but vectors that the model
/// of the query made, of chunks that pass the filters, the more similar
/// first: a vector of another model is never returned.
pub proof fn lemma_nearest_sound(
    all: Seq<StoredVectorView>,
    query: Seq<i16>,
    model: Seq<u8>,
    f: Filters,
)
    requires
        all_sound(all),
        query.len() <= MAX_DIMENSION,
    ensures
        in_rank_order::<Neighbor>(nearest_to(all, query, model, f)),
        forall|k: int|
            0 <= k < nearest_to(all, query, model, f).len() ==> exists|i: int|
                0 <= i < all.len() && all[i].model_id == model && eligible(all[i], query, model, f)
                    && #[trigger] nearest_to(all, query, model, f)[k] == neighbor_of(all[i], query),
{
    broadcast use vstd::seq_lib::group_to_multiset_ensures;

    let c = near_candidates(all, all.len() as int, query, model, f);
    assert forall|k: int| 0 <= k < c.len() implies #[trigger] Neighbor::rankable(c[k]) by {
        let i = lemma_near_candidates_eligible(all, all.len() as int, query, model, f, k);
        lemma_neighbor_in_range(all[i], query);
    }
    lemma_ranked_permutes::<Neighbor>(c);
    lemma_ranked_in_order::<Neighbor>(c);
    let r = nearest_to(all, query, model, f);
    assert forall|k: int| 0 <= k < r.len() implies exists|i: int|
        0 <= i < all.len() && all[i].model_id == model && eligible(all[i], query, model, f)
            && #[trigger] r[k] == neighbor_of(all[i], query) by {
        assert(r.contains(r[k]));
        assert(r.to_multiset().count(r[k]) > 0);
        assert(c.contains(r[k]));
        let m = choose|m: int| 0 <= m < c.len() && c[m] == r[k];
        let i = lemma_near_candidates_eligible(all, all.len() as int, query, model, f, m);
        assert(0 <= i < all.len() && all[i].model_id == model && eligible(all[i], query, model, f)
            && r[k] == neighbor_of(all[i], query));
    }
}

/// The neighbour of a sound vector to a query of its dimension can be
/// ranked.
pub proof fn lemma_neighbor_in_range(e: StoredVectorView, query: Seq<i16>)
    requires
        e.wf(),
        e.vector.len() == query.len(),
    ensures
        Neighbor::rankable(neighbor_of(e, query)),
        neighbor_of(e, query).dot == dot(e.vector, query),
        neighbor_of(e, query).query_norm_sq == norm_sq(query),
{
    lemma_dot_bound(e.vector, query, e.vector.len() as int);
    lemma_dot_bound(e.vector, e.vector, e.vector.len() as int);
    lemma_dot_bound(query, query, query.len() as int);
}

/// Whether `id` is among `ids`.
pub fn id_among(ids: &Vec<u64>, id: u64) -> (r: bool)
    ensures
        r == ids@.contains(id),
{
    let mut i: usize = 0;
    while i < ids.len()
        invariant
            i <= ids.len(),
            forall|j: int| 0 <= j < i ==> ids@[j] != id,
        decreases ids.len() - i,
    {
        if ids[i] == id {
            return true;
        }
        i += 1;
    }
    false
}

/// The embedding store.
pub struct EmbeddingStore {
    vectors: Vec<StoredVector>,
}

impl View for EmbeddingStore {
    type V = Seq<StoredVectorView>;

    closed spec fn view(&self) -> Seq<StoredVectorView> {
        views(self.vectors@)
    }
}

impl EmbeddingStore {
    /// The store is sound where every vector is, the vectors of each
    /// model have one dimension and no chunk has two vectors.
    pub open spec fn wf(&self) -> bool {
        all_sound(self@) && one_dimension(self@) && each_chunk_once(self@)
    }

    /// A store without vectors.
    pub fn new() -> (r: EmbeddingStore)
        ensures
            r@ == Seq::<StoredVectorView>::empty(),
            r.wf(),
    {
        let r = EmbeddingStore { vectors: Vec::new() };
        assert(r@ =~= Seq::<StoredVectorView>::empty());
        r
    }

    /// A store of the vectors `vectors`, as they were written out by an
    /// earlier run, or none where they are not sound together: the store
    /// is then corrupt and is to be built anew.
    pub fn restore(vectors: Vec<StoredVector>) -> (r: Option<EmbeddingStore>)
        ensures
            r is Some <==> all_sound(views(vectors@)) && one_dimension(views(vectors@))
                && each_chunk_once(views(vectors@)),
            r matches Some(store) ==> store@ == views(vectors@) && store.wf(),
    {
        let ghost vs = views(vectors@);
        let mut i: usize = 0;
        while i < vectors.len()
            invariant
                i <= vectors.len(),
                vs == views(vectors@),
                forall|k: int| 0 <= k < i ==> (#[trigger] vs[k]).wf(),
                forall|a: int, b: int|
                    0 <= a < i && 0 <= b < i && (#[trigger] vs[a]).model_id == (
                    #[trigger] vs[b]).model_id ==> vs[a].vector.len() == vs[b].vector.len(),
                forall|a: int, b: int| 0 <= a < b < i ==> #[trigger] of_two_chunks(vs[a], vs[b]),
            decreases vectors.len() - i,
        {
            assert(vs[i as int] == vectors[i as int]@);
            let v = &vectors[i];
            let dim = v.vector.len();
            if dim < 1 || dim > MAX_DIMENSION {
                return None;
            }
            let n = dot_product(&v.vector, &v.vector);
            if v.norm_sq != n as u64 {
                return None;
            }
            let mut k: usize = 0;
            while k < i
                invariant
                    k <= i,
                    i < vectors.len(),
                    vs == views(vectors@),
                    forall|m: int|
                        0 <= m < k && (#[trigger] vs[m]).model_id == vs[i as int].model_id
                            ==> vs[m].vector.len() == vs[i as int].vector.len(),
                    forall|m: int| 0 <= m < k ==> #[trigger] of_two_chunks(vs[m], vs[i as int]),
                decreases i - k,
            {
                assert(vs[k as int] == vectors[k as int]@);
                assert(vs[i as int] == vectors[i as int]@);
                if bytes_eq(vectors[k].model_id.as_slice(), vectors[i].model_id.as_slice())
                    && vectors[k].vector.len() != vectors[i].vector.len() {
                    return None;
                }
                if vectors[k].meta.chunk_id == vectors[i].meta.chunk_id {
                    assert(!of_two_chunks(vs[k as int], vs[i as int]));
                    return None;
                }
                k += 1;
            }
            i += 1;
        }
        Some(EmbeddingStore { vectors })
    }

    /// The number of vectors in the store.
    pub fn len(&self) -> (n: usize)
        ensures
            n == self@.len(),
    {
        self.vectors.len()
    }

    /// The vector at position `i`.
    pub fn stored(&self, i: usize) -> (e: &StoredVector)
        requires
            i < self@.len(),
        ensures
            e@ == self@[i as int],
    {
        &self.vectors[i]
    }

    /// Removes every vector of a chunk that lies in `scope`.
    pub fn remove(&mut self, scope: &Scope)
        requires
            old(self).wf(),
        ensures
            final(self).wf(),
            final(self)@ == old(self)@.filter(outside::<StoredVector>(scope@)),
    {
        let mut taken: Vec<StoredVector> = Vec::new();
        std::mem::swap(&mut self.vectors, &mut taken);
        proof {
            lemma_filter_keeps_store(views(taken@), outside::<StoredVector>(scope@));
        }
        self.vectors = drop_scope(taken, scope);
    }

    /// Removes the vectors of the chunks `chunk_ids`.
    pub fn delete(&mut self, chunk_ids: &Vec<u64>)
        requires
            old(self).wf(),
        ensures
            final(self).wf(),
            final(self)@ == old(self)@.filter(not_among(chunk_ids@)),
    {
        let mut taken: Vec<StoredVector> = Vec::new();
        std::mem::swap(&mut self.vectors, &mut taken);
        let ghost all = views(taken@);
        let ghost keep = not_among(chunk_ids@);
        let mut out: Vec<StoredVector> = Vec::new();
        assert(all.take(0).filter(keep) =~= Seq::<StoredVectorView>::empty());
        assert(views(out@) =~= Seq::<StoredVectorView>::empty());
        for e in it: taken
            invariant
                it.seq() == taken@,
                all == views(taken@),
                keep == not_among(chunk_ids@),
                views(out@) == all.take(it.index() as int).filter(keep),
        {
            let ghost i = it.index() as int;
            let ghost before = views(out@);
            proof {
                assert(all.take(i + 1) =~= all.take(i).push(all[i]));
                all.take(i).lemma_filter_push(all[i], keep);
                assert(all[i] == e@);
            }
            if !id_among(chunk_ids, e.meta.chunk_id) {
                out.push(e);
                assert(views(out@) =~= before.push(all[i]));
            }
        }
        assert(all.take(all.len() as int) =~= all);
        proof {
            lemma_filter_keeps_store(all, keep);
        }
        self.vectors = out;
    }

    /// Whether a vector of `model` with dimension `dim` would stand beside
    /// one of the same model and another dimension.
    pub fn would_clash(&self, model: &[u8], dim: usize) -> (r: bool)
        ensures
            r == clashes(self@, model@, dim as int),
    {
        let mut i: usize = 0;
        while i < self.vectors.len()
            invariant
                i <= self.vectors.len(),
                forall|j: int|
                    0 <= j < i ==> !((#[trigger] self@[j]).model_id == model@
                        && self@[j].vector.len() != dim),
            decreases self.vectors.len() - i,
        {
            assert(self@[i as int] == self.vectors[i as int]@);
            if bytes_eq(self.vectors[i].model_id.as_slice(), model) && self.vectors[i].vector.len()
                != dim {
                return true;
            }
            i += 1;
        }
        false
    }

    /// Stores the embedding of the chunk `meta` in place of any vector
    /// that the store holds for that chunk. An embedding of another chunk,
    /// of a dimension outside 1 to `MAX_DIMENSION`, or of a model of which
    /// the store holds vectors of another dimension is refused and the
    /// store stays as it is.
    pub fn upsert(&mut self, meta: Meta, embedding: ChunkEmbedding) -> (r: Result<(), EmbedError>)
        requires
            old(self).wf(),
        ensures
            final(self).wf(),
            r is Ok <==> (meta.chunk_id == embedding.chunk_id && 1 <= embedding.vector.len()
                <= MAX_DIMENSION && !clashes(
                old(self)@,
                embedding.model_id@,
                embedding.vector.len() as int,
            )),
            r is Ok ==> final(self)@ == old(self)@.filter(not_among(seq![meta.chunk_id])).push(
                stored_as(meta@, embedding@),
            ),
            r is Err ==> final(self)@ == old(self)@ && r == Err::<(), EmbedError>(
                EmbedError::Malformed,
            ),
    {
        let dim = embedding.vector.len();
        if meta.chunk_id != embedding.chunk_id || dim < 1 || dim > MAX_DIMENSION
            || self.would_clash(embedding.model_id.as_slice(), dim) {
            return Err(EmbedError::Malformed);
        }
        let ghost before = self@;
        let mut ids: Vec<u64> = Vec::new();
        ids.push(meta.chunk_id);
        assert(ids@ =~= seq![meta.chunk_id]);
        self.delete(&ids);
        let ghost kept = self@;
        let n = dot_product(&embedding.vector, &embedding.vector);
        let e = StoredVector {
            meta,
            model_id: embedding.model_id,
            vector: embedding.vector,
            norm_sq: n as u64,
        };
        let ghost ev = e@;
        self.vectors.push(e);
        proof {
            assert(self@ =~= kept.push(ev));
            lemma_filter_all(
                before,
                not_among(seq![ev.meta.chunk_id]),
                |x: StoredVectorView|
                    x.wf() && !(x.model_id == ev.model_id && x.vector.len() != ev.vector.len()),
            );
            assert(all_sound(self@));
            assert(one_dimension(self@));
            lemma_filter_all(
                before,
                not_among(seq![ev.meta.chunk_id]),
                |x: StoredVectorView| true,
            );
            assert forall|i: int, j: int| 0 <= i < j < self@.len() implies #[trigger] of_two_chunks(
                self@[i],
                self@[j],
            ) by {
                assert(self@[i] == kept[i]);
                if j < kept.len() {
                    assert(of_two_chunks(kept[i], kept[j]));
                } else {
                    assert(not_among(seq![ev.meta.chunk_id])(kept[i]));
                    assert(seq![ev.meta.chunk_id][0] == ev.meta.chunk_id);
                }
            }
        }
        Ok(())
    }

    /// Finds the vectors nearest to `query` among those that `model` made:
    /// the eligible vectors ranked by cosine similarity, ties by the
    /// tie-break, and the first `limit` of them. Vectors of another model
    /// count as absent.
    pub fn nearest(&self, query: &Vec<i16>, model: &[u8], filters: &Filters, limit: usize) -> (out:
        Vec<Neighbor>)
        requires
            self.wf(),
        ensures
            views(out@) == limited(nearest_to(self@, query@, model@, *filters), limit),
    {
        let mut found: Vec<Neighbor> = Vec::new();
        let query_norm: u64 = if query.len() <= MAX_DIMENSION {
            dot_product(query, query) as u64
        } else {
            0
        };
        let mut i: usize = 0;
        assert(views(found@) =~= near_candidates(self@, 0, query@, model@, *filters));
        while i < self.vectors.len()
            invariant
                i <= self.vectors.len(),
                self.wf(),
                query.len() <= MAX_DIMENSION ==> query_norm == norm_sq(query@),
                views(found@) == near_candidates(self@, i as int, query@, model@, *filters),
                forall|k: int| 0 <= k < found.len() ==> Neighbor::rankable(#[trigger] found[k]@),
            decreases self.vectors.len() - i,
        {
            let e = &self.vectors[i];
            let ghost before = views(found@);
            assert(e@ == self@[i as int]);
            if bytes_eq(e.model_id.as_slice(), model) && e.vector.len() == query.len()
                && filters.passes(e.meta.repo_id, e.meta.kind) {
                proof {
                    lemma_neighbor_in_range(e@, query@);
                }
                let d = dot_product(&e.vector, query);
                let nb = Neighbor {
                    meta: e.meta.duplicate(),
                    dot: d,
                    norm_sq: e.norm_sq,
                    query_norm_sq: query_norm,
                };
                assert(nb@ == neighbor_of(self@[i as int], query@));
                found.push(nb);
                assert(views(found@) =~= before.push(neighbor_of(self@[i as int], query@)));
            }
            i += 1;
        }
        let mut out = sort_ranked(found);
        let ghost full = views(out@);
        out.truncate(limit);
        assert(views(out@) =~= limited(full, limit));
        out
    }
}

/// A filter keeps a store sound.
pub proof fn lemma_filter_keeps_store(
    s: Seq<StoredVectorView>,
    keep: spec_fn(StoredVectorView) -> bool,
)
    requires
        all_sound(s),
        one_dimension(s),
        each_chunk_once(s),
    ensures
        all_sound(s.filter(keep)),
        one_dimension(s.filter(keep)),
        each_chunk_once(s.filter(keep)),
{
    lemma_filter_all(s, keep, |x: StoredVectorView| x.wf());
    lemma_filter_pairs(s, keep, |a: StoredVectorView, b: StoredVectorView| of_two_chunks(a, b));
    let t = s.filter(keep);
    assert forall|i: int, j: int|
        0 <= i < t.len() && 0 <= j < t.len() && (#[trigger] t[i]).model_id == (
        #[trigger] t[j]).model_id implies t[i].vector.len() == t[j].vector.len() by {
        assert(t.contains(t[i]));
        assert(t.contains(t[j]));
        s.lemma_filter_contains_rev(keep, t[i]);
        s.lemma_filter_contains_rev(keep, t[j]);
        let a = choose|a: int| 0 <= a < s.len() && s[a] == t[i];
        let b = choose|b: int| 0 <= b < s.len() && s[b] == t[j];
        assert(s[a].model_id == s[b].model_id);
    }
}

/// There are no more neighbours among the candidates than vectors.
pub proof fn lemma_near_candidates_len(
    all: Seq<StoredVectorView>,
    n: int,
    query: Seq<i16>,
    model: Seq<u8>,
    f: Filters,
)
    requires
        0 <= n,
    ensures
        near_candidates(all, n, query, model, f).len() <= n,
    decreases n,
{
    if n > 0 {
        lemma_near_candidates_len(all, n - 1, query, model, f);
    }
}

/// A nearest-neighbour search has no more results than the store has
/// vectors.
pub proof fn lemma_nearest_len(
    all: Seq<StoredVectorView>,
    query: Seq<i16>,
    model: Seq<u8>,
    f: Filters,
)
    ensures
        nearest_to(all, query, model, f).len() <= all.len(),
{
    lemma_near_candidates_len(all, all.len() as int, query, model, f);
    lemma_ranked_permutes::<Neighbor>(near_candidates(all, all.len() as int, query, model, f));
}

/// Where no chunk has two vectors, no chunk stands twice among the
/// candidates.
pub proof fn lemma_near_candidates_distinct(
    all: Seq<StoredVectorView>,
    n: int,
    query: Seq<i16>,
    model: Seq<u8>,
    f: Filters,
)
    requires
        0 <= n <= all.len(),
        each_chunk_once(all),
    ensures
        forall|a: int, b: int|
            0 <= a < b < near_candidates(all, n, query, model, f).len() ==> (
            #[trigger] near_candidates(all, n, query, model, f)[a]).meta.chunk_id != (
            #[trigger] near_candidates(all, n, query, model, f)[b]).meta.chunk_id,
    decreases n,
{
    if n > 0 {
        lemma_near_candidates_distinct(all, n - 1, query, model, f);
        let rest = near_candidates(all, n - 1, query, model, f);
        let c = near_candidates(all, n, query, model, f);
        assert forall|a: int, b: int| 0 <= a < b < c.len() implies (#[trigger] c[a]).meta.chunk_id != (
        #[trigger] c[b]).meta.chunk_id by {
            if b < rest.len() {
                assert(c[a] == rest[a] && c[b] == rest[b]);
            } else {
                let i = lemma_near_candidates_eligible(all, n - 1, query, model, f, a);
                assert(c[a] == rest[a]);
                assert(of_two_chunks(all[i], all[n - 1]));
            }
        }
    }
}

/// The answer to a nearest-neighbour search is the one ranking of the
/// eligible vectors: every neighbour ranks strictly before each one
/// behind it, and any sequence that holds the neighbours of the eligible
/// vectors, each once, in such an order is the answer.
pub proof fn lemma_nearest_is_the_ranking(
    all: Seq<StoredVectorView>,
    query: Seq<i16>,
    model: Seq<u8>,
    f: Filters,
    r: Seq<NeighborView>,
)
    requires
        all_sound(all),
        each_chunk_once(all),
        strictly_ranked::<Neighbor>(r),
        r.to_multiset() == near_candidates(all, all.len() as int, query, model, f).to_multiset(),
    ensures
        strictly_ranked::<Neighbor>(nearest_to(all, query, model, f)),
        r == nearest_to(all, query, model, f),
{
    broadcast use vstd::seq_lib::group_to_multiset_ensures;

    let c = near_candidates(all, all.len() as int, query, model, f);
    lemma_near_candidates_distinct(all, all.len() as int, query, model, f);
    assert forall|k: int| 0 <= k < c.len() implies #[trigger] Neighbor::rankable(c[k]) by {
        let i = lemma_near_candidates_eligible(all, all.len() as int, query, model, f, k);
        lemma_neighbor_in_range(all[i], query);
    }
    assert forall|i: int, j: int| 0 <= i < c.len() && 0 <= j < c.len() && i != j implies c[i] != c[j]
        && (#[trigger] Neighbor::outranks(c[i], c[j]) || Neighbor::outranks(c[j], c[i])) by {
        if i < j {
            assert(c[i].meta.chunk_id != c[j].meta.chunk_id);
        } else {
            assert(c[j].meta.chunk_id != c[i].meta.chunk_id);
        }
        lemma_tie_order(c[i].meta, c[j].meta, c[i].meta);
    }
    lemma_ranked_strict::<Neighbor>(c);
    lemma_ranked_permutes::<Neighbor>(c);
    lemma_ranked_in_order::<Neighbor>(c);
    assert forall|k: int| 0 <= k < r.len() implies #[trigger] Neighbor::rankable(r[k]) by {
        assert(r.contains(r[k]));
        assert(r.to_multiset().count(r[k]) > 0);
        assert(c.contains(r[k]));
    }
    lemma_ranking_unique::<Neighbor>(r, nearest_to(all, query, model, f));
}

} // verus!
