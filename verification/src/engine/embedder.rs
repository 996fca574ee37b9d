//! The embedding side of the engine: batches of chunk texts for the
//! embedding model, the check of what the model hands back, and the vector
//! arithmetic of cosine similarity over quantised vectors.

use vstd::prelude::*;
use crate::engine::text::{views};

verus! {

/// The largest dimension that a vector may have.
pub const MAX_DIMENSION: usize = 4096;

/// The largest magnitude of a dot product of two vectors within
/// `MAX_DIMENSION`: 4096 products of at most 32768 * 32768 each.
pub const MAX_DOT: i64 = 0x400_0000_0000;

/// The dot product of the first `n` components of two vectors.
pub open spec fn dot_upto(a: Seq<i16>, b: Seq<i16>, n: int) -> int
    decreases n,
{
    if n <= 0 {
        0
    } else {
        dot_upto(a, b, n - 1) + a[n - 1] * b[n - 1]
    }
}

/// The dot product of two vectors of one dimension.
pub open spec fn dot(a: Seq<i16>, b: Seq<i16>) -> int {
    dot_upto(a, b, a.len() as int)
}

/// The squared length of a vector.
pub open spec fn norm_sq(a: Seq<i16>) -> int {
    dot(a, a)
}

/// A dot product of `n` components lies within `n` times the largest
/// product of two components, and that of a vector with itself is not
/// negative.
pub proof fn lemma_dot_bound(a: Seq<i16>, b: Seq<i16>, n: int)
    requires
        0 <= n <= a.len(),
        n <= b.len(),
    ensures
        -n * 0x4000_0000 <= dot_upto(a, b, n) <= n * 0x4000_0000,
        a == b ==> 0 <= dot_upto(a, b, n),
    decreases n,
{
    if n > 0 {
        lemma_dot_bound(a, b, n - 1);
        let x = a[n - 1] as int;
        let y = b[n - 1] as int;
        assert(-0x4000_0000 <= x * y <= 0x4000_0000) by (nonlinear_arith)
            requires
                -0x8000 <= x <= 0x7fff,
                -0x8000 <= y <= 0x7fff,
        ;
        assert(x == y ==> x * y >= 0) by (nonlinear_arith);
    }
}

/// Computes the dot product of two vectors of one dimension.
pub fn dot_product(a: &Vec<i16>, b: &Vec<i16>) -> (d: i64)
    requires
        a.len() == b.len(),
        a.len() <= MAX_DIMENSION,
    ensures
        d == dot(a@, b@),
        -MAX_DOT <= d <= MAX_DOT,
        a@ == b@ ==> d >= 0,
{
    let mut d: i64 = 0;
    let mut i: usize = 0;
    while i < a.len()
        invariant
            i <= a.len(),
            a.len() == b.len(),
            a.len() <= MAX_DIMENSION,
            d == dot_upto(a@, b@, i as int),
        decreases a.len() - i,
    {
        proof {
            lemma_dot_bound(a@, b@, i as int);
            lemma_dot_bound(a@, b@, i + 1);
        }
        let x: i64 = a[i] as i64;
        let y: i64 = b[i] as i64;
        assert(-0x4000_0000 <= x * y <= 0x4000_0000) by (nonlinear_arith)
            requires
                -0x8000 <= x <= 0x7fff,
                -0x8000 <= y <= 0x7fff,
        ;
        d = d + x * y;
        i += 1;
    }
    proof {
        lemma_dot_bound(a@, b@, a.len() as int);
    }
    d
}

/// A chunk's text on its way to the embedding model.
#[derive(Debug)]
pub struct TextChunk {
    pub chunk_id: u64,
    pub text: Vec<u8>,
}

impl View for TextChunk {
    type V = (u64, Seq<u8>);

    open spec fn view(&self) -> (u64, Seq<u8>) {
        (self.chunk_id, self.text@)
    }
}

/// A chunk's vector as the embedding model made it.
#[derive(Debug)]
pub struct ChunkEmbedding {
    pub chunk_id: u64,
    pub model_id: Vec<u8>,
    pub vector: Vec<i16>,
}

/// A `ChunkEmbedding` as contracts see it.
pub struct ChunkEmbeddingView {
    pub chunk_id: u64,
    pub model_id: Seq<u8>,
    pub vector: Seq<i16>,
}

impl View for ChunkEmbedding {
    type V = ChunkEmbeddingView;

    open spec fn view(&self) -> ChunkEmbeddingView {
        ChunkEmbeddingView { chunk_id: self.chunk_id, model_id: self.model_id@, vector: self.vector@ }
    }
}

/// Why embeddings could not be had or stored.
#[derive(Clone, Copy, PartialEq, Eq, Structural, Debug)]
pub enum EmbedError {
    /// The model could not be loaded or run. Lexical indexing and lexical
    /// search go on without it.
    Unavailable,
    /// The model handed back another number of vectors than it was given
    /// texts, or a vector of another dimension than the model has.
    Malformed,
}

/// The views of the batches of a batch list.
pub open spec fn batch_views(v: Seq<Vec<TextChunk>>) -> Seq<Seq<(u64, Seq<u8>)>> {
    Seq::new(v.len(), |i: int| views(v[i]@))
}

/// The configured embedding model: its name, the dimension of its vectors
/// and the number of texts that one call of it takes at most.
#[derive(Debug)]
pub struct Embedder {
    pub model_id: Vec<u8>,
    pub dimension: usize,
    pub batch_size: usize,
}

impl Embedder {
    /// A configuration is sound where the dimension lies between 1 and
    /// `MAX_DIMENSION` and a batch takes at least one text.
    pub open spec fn wf(&self) -> bool {
        1 <= self.dimension <= MAX_DIMENSION && self.batch_size >= 1
    }

    /// The configuration of a model, or none where it is not sound.
    pub fn new(model_id: Vec<u8>, dimension: usize, batch_size: usize) -> (r: Option<Embedder>)
        ensures
            r is Some <==> (1 <= dimension <= MAX_DIMENSION && batch_size >= 1),
            r matches Some(e) ==> e.wf() && e.model_id == model_id && e.dimension == dimension
                && e.batch_size == batch_size,
    {
        if 1 <= dimension && dimension <= MAX_DIMENSION && batch_size >= 1 {
            Some(Embedder { model_id, dimension, batch_size })
        } else {
            None
        }
    }

    /// Cuts the chunks into batches for the model: the chunks in their
    /// order, `batch_size` to a batch, the rest in a last shorter one.
    pub fn plan_batches(&self, chunks: Vec<TextChunk>) -> (batches: Vec<Vec<TextChunk>>)
        requires
            self.wf(),
        ensures
            batch_views(batches@).flatten() == views(chunks@),
            forall|i: int| 0 <= i < batches.len() ==> 1 <= (#[trigger] batches[i]).len() <= self.batch_size,
            forall|i: int| 0 <= i < batches.len() - 1 ==> (#[trigger] batches[i]).len() == self.batch_size,
    {
        let mut batches: Vec<Vec<TextChunk>> = Vec::new();
        let mut cur: Vec<TextChunk> = Vec::new();
        let ghost all = views(chunks@);
        assert(batch_views(batches@) =~= Seq::<Seq<(u64, Seq<u8>)>>::empty());
        assert(batch_views(batches@).flatten() + views(cur@) =~= all.take(0)) by {
            assert(batch_views(batches@).flatten() =~= Seq::<(u64, Seq<u8>)>::empty());
        }
        for c in it: chunks
            invariant
                it.seq() == chunks@,
                all == views(chunks@),
                self.wf(),
                cur.len() < self.batch_size,
                batch_views(batches@).flatten() + views(cur@) == all.take(it.index() as int),
                forall|i: int| 0 <= i < batches.len() ==> (#[trigger] batches[i]).len() == self.batch_size,
        {
            let ghost i = it.index() as int;
            let ghost done = batch_views(batches@).flatten();
            let ghost curv = views(cur@);
            assert(all[i] == c@);
            cur.push(c);
            assert(views(cur@) =~= curv.push(all[i]));
            assert(all.take(i + 1) =~= all.take(i).push(all[i]));
            if cur.len() == self.batch_size {
                let ghost full = views(cur@);
                let ghost bv = batch_views(batches@);
                batches.push(cur);
                cur = Vec::new();
                proof {
                    assert(batch_views(batches@) =~= bv.push(full));
                    bv.lemma_flatten_push(full);
                    assert(views(cur@) =~= Seq::<(u64, Seq<u8>)>::empty());
                    assert(batch_views(batches@).flatten() + views(cur@) =~= done + full);
                }
            } else {
                assert(done + views(cur@) =~= (done + curv).push(all[i]));
            }
        }
        assert(all.take(all.len() as int) =~= all);
        if cur.len() > 0 {
            let ghost full = views(cur@);
            let ghost bv = batch_views(batches@);
            batches.push(cur);
            proof {
                assert(batch_views(batches@) =~= bv.push(full));
                bv.lemma_flatten_push(full);
            }
        } else {
            assert(views(cur@) =~= Seq::<(u64, Seq<u8>)>::empty());
            assert(batch_views(batches@).flatten() + views(cur@) =~= batch_views(
                batches@,
            ).flatten());
        }
        batches
    }

    /// What the model's answer to a batch means. `None` stands for a model
    /// that could not be run. An answer is taken where it holds one vector
    /// of the model's dimension for each text of the batch.
    pub open spec fn accepted(&self, batch: Seq<(u64, Seq<u8>)>, output: Option<Seq<Seq<i16>>>)
        -> Result<Seq<ChunkEmbeddingView>, EmbedError> {
        match output {
            None => Err(EmbedError::Unavailable),
            Some(vs) => {
                if vs.len() == batch.len() && forall|i: int|
                    0 <= i < vs.len() ==> (#[trigger] vs[i]).len() == self.dimension {
                    Ok(
                        Seq::new(
                            batch.len(),
                            |i: int|
                                ChunkEmbeddingView {
                                    chunk_id: batch[i].0,
                                    model_id: self.model_id@,
                                    vector: vs[i],
                                },
                        ),
                    )
                } else {
                    Err(EmbedError::Malformed)
                }
            },
        }
    }

    /// Checks the model's answer to a batch and stamps each vector with
    /// its chunk and with the model.
    pub fn accept(&self, batch: &Vec<TextChunk>, output: Option<Vec<Vec<i16>>>) -> (r: Result<
        Vec<ChunkEmbedding>,
        EmbedError,
    >)
        ensures
            match r {
                Ok(es) => self.accepted(
                    views(batch@),
                    match output {
                        Some(vs) => Some(views(vs@)),
                        None => None,
                    },
                ) == Ok::<Seq<ChunkEmbeddingView>, EmbedError>(views(es@)),
                Err(e) => self.accepted(
                    views(batch@),
                    match output {
                        Some(vs) => Some(views(vs@)),
                        None => None,
                    },
                ) == Err::<Seq<ChunkEmbeddingView>, EmbedError>(e),
            },
    {
        let vectors = match output {
            None => {
                return Err(EmbedError::Unavailable);
            },
            Some(vs) => vs,
        };
        let ghost vs = views(vectors@);
        if vectors.len() != batch.len() {
            return Err(EmbedError::Malformed);
        }
        let mut k: usize = 0;
        while k < vectors.len()
            invariant
                k <= vectors.len(),
                vs == views(vectors@),
                output == Some(vectors),
                vectors.len() == batch.len(),
                forall|i: int| 0 <= i < k ==> (#[trigger] vs[i]).len() == self.dimension,
            decreases vectors.len() - k,
        {
            assert(vs[k as int] == vectors[k as int]@);
            if vectors[k].len() != self.dimension {
                return Err(EmbedError::Malformed);
            }
            k += 1;
        }
        let mut out: Vec<ChunkEmbedding> = Vec::new();
        let count = vectors.len();
        let mut i: usize = 0;
        for v in it: vectors
            invariant
                i == it.index(),
                it.seq() == vectors@,
                it.seq().len() == count,
                count == batch.len(),
                vs == views(vectors@),
                out.len() == i,
                forall|j: int|
                    0 <= j < i ==> (#[trigger] out[j])@ == (ChunkEmbeddingView {
                        chunk_id: batch[j].chunk_id,
                        model_id: self.model_id@,
                        vector: vs[j],
                    }),
        {
            assert(vs[i as int] == v@);
            let model_id = self.model_id.clone();
            assert(model_id@ =~= self.model_id@);
            out.push(ChunkEmbedding { chunk_id: batch[i].chunk_id, model_id, vector: v });
            i += 1;
        }
        assert(views(out@) =~= self.accepted(views(batch@), Some(vs)).unwrap());
        Ok(out)
    }
}

} // verus!
