//! The hybrid searcher: the choice of a search mode and the fusion of a
//! lexical and a semantic ranking by reciprocal ranks.

use vstd::prelude::*;
use crate::engine::lexical::{
    EntryView, Hit, HitView, LexicalIndex, SNIPPET_BYTES, by_chunk, copy_bytes, lemma_search_len,
    search, snippet_of,
};
use crate::engine::model::{Filters, Meta, MetaView, lemma_tie_order, limited, tie_before};
use crate::engine::query::{ClauseView, QueryError, parse, parse_query};
use crate::engine::rank::{
    RankLaws, Ranked, all_decided, lemma_ranked_in_order, lemma_ranked_permutes,
    lemma_ranked_strict, lemma_ranking_unique, lemma_ratio_order, ranked, ratio_above,
    sort_ranked, strictly_ranked,
};
use crate::engine::text::views;
use crate::engine::vectors::{
    EmbeddingStore, Neighbor, NeighborView, StoredVectorView, lemma_nearest_len, nearest_to,
};

verus! {

/// How a search is answered.
#[derive(Clone, Copy, PartialEq, Eq, Structural, Debug)]
pub enum SearchMode {
    Lexical,
    Semantic,
    Hybrid,
}

/// The smoothing constant of reciprocal-rank fusion that is used where the
/// caller configures none.
pub const DEFAULT_SMOOTHING: u32 = 60;

impl SearchMode {
    /// The mode that the three mode flags select: the one that is set, the
    /// hybrid mode where none is, and none where more than one is.
    pub open spec fn selected(lexical: bool, semantic: bool, hybrid: bool) -> Option<SearchMode> {
        if (lexical && semantic) || (lexical && hybrid) || (semantic && hybrid) {
            None
        } else if lexical {
            Some(SearchMode::Lexical)
        } else if semantic {
            Some(SearchMode::Semantic)
        } else {
            Some(SearchMode::Hybrid)
        }
    }

    /// Chooses the mode from the three mode flags; two flags at once are
    /// refused.
    pub fn from_flags(lexical: bool, semantic: bool, hybrid: bool) -> (r: Option<SearchMode>)
        ensures
            r == Self::selected(lexical, semantic, hybrid),
    {
        if (lexical && semantic) || (lexical && hybrid) || (semantic && hybrid) {
            None
        } else if lexical {
            Some(SearchMode::Lexical)
        } else if semantic {
            Some(SearchMode::Semantic)
        } else {
            Some(SearchMode::Hybrid)
        }
    }
}

/// A result of fusion: a chunk with its 1-based rank in the lexical and in
/// the semantic ranking, 0 where it is absent from one, and the smoothing
/// constant that its score is taken with.
#[derive(Debug)]
pub struct Fused {
    pub meta: Meta,
    pub lexical_rank: u32,
    pub semantic_rank: u32,
    pub smoothing: u32,
}

/// A `Fused` as contracts see it.
pub struct FusedView {
    pub meta: MetaView,
    pub lexical_rank: u32,
    pub semantic_rank: u32,
    pub smoothing: u32,
}

impl View for Fused {
    type V = FusedView;

    open spec fn view(&self) -> FusedView {
        FusedView {
            meta: self.meta@,
            lexical_rank: self.lexical_rank,
            semantic_rank: self.semantic_rank,
            smoothing: self.smoothing,
        }
    }
}

/// The numerator of `1/(k + rl) + 1/(k + rs)` over the denominator
/// `fused_den`, where a rank of 0 contributes nothing.
pub open spec fn fused_num(k: int, rl: int, rs: int) -> int {
    if rl > 0 && rs > 0 {
        (k + rl) + (k + rs)
    } else if rl > 0 || rs > 0 {
        1
    } else {
        0
    }
}

/// The denominator that goes with `fused_num`.
pub open spec fn fused_den(k: int, rl: int, rs: int) -> int {
    if rl > 0 && rs > 0 {
        (k + rl) * (k + rs)
    } else if rl > 0 {
        k + rl
    } else if rs > 0 {
        k + rs
    } else {
        1
    }
}

impl FusedView {
    /// The numerator of the fused score.
    pub open spec fn num(self) -> int {
        fused_num(self.smoothing as int, self.lexical_rank as int, self.semantic_rank as int)
    }

    /// The denominator of the fused score.
    pub open spec fn den(self) -> int {
        fused_den(self.smoothing as int, self.lexical_rank as int, self.semantic_rank as int)
    }
}

/// The bounds within which fused scores are compared.
pub proof fn lemma_fused_bounds(k: u32, rl: u32, rs: u32)
    ensures
        0 <= fused_num(k as int, rl as int, rs as int) <= 0x4_0000_0000,
        0 < fused_den(k as int, rl as int, rs as int) <= 0x4_0000_0000_0000_0000,
{
    let a = k as int + rl as int;
    let b = k as int + rs as int;
    if rl > 0 && rs > 0 {
        assert(0 < a * b <= 0x2_0000_0000 * 0x2_0000_0000) by (nonlinear_arith)
            requires
                0 < a <= 0x2_0000_0000,
                0 < b <= 0x2_0000_0000,
        ;
    }
}

impl Fused {
    /// The numerator of the fused score.
    pub fn score_num(&self) -> (n: u64)
        ensures
            n == self@.num(),
    {
        let a: u64 = self.smoothing as u64 + self.lexical_rank as u64;
        let b: u64 = self.smoothing as u64 + self.semantic_rank as u64;
        if self.lexical_rank > 0 && self.semantic_rank > 0 {
            a + b
        } else if self.lexical_rank > 0 || self.semantic_rank > 0 {
            1
        } else {
            0
        }
    }

    /// The denominator of the fused score.
    pub fn score_den(&self) -> (d: u128)
        ensures
            d == self@.den(),
    {
        let a: u128 = self.smoothing as u128 + self.lexical_rank as u128;
        let b: u128 = self.smoothing as u128 + self.semantic_rank as u128;
        proof {
            lemma_fused_bounds(self.smoothing, self.lexical_rank, self.semantic_rank);
        }
        if self.lexical_rank > 0 && self.semantic_rank > 0 {
            a * b
        } else if self.lexical_rank > 0 {
            a
        } else if self.semantic_rank > 0 {
            b
        } else {
            1
        }
    }
}

impl Ranked for Fused {
    open spec fn rankable(a: FusedView) -> bool {
        true
    }

    /// The higher fused score first; equal scores by the tie-break.
    open spec fn outranks(a: FusedView, b: FusedView) -> bool {
        ratio_above(a.num(), a.den(), b.num(), b.den()) || (a.num() * b.den() == b.num() * a.den()
            && tie_before(a.meta, b.meta))
    }

    fn ranks_before(&self, other: &Fused) -> (r: bool) {
        let na: u128 = self.score_num() as u128;
        let da: u128 = self.score_den();
        let nb: u128 = other.score_num() as u128;
        let db: u128 = other.score_den();
        proof {
            lemma_fused_bounds(self.smoothing, self.lexical_rank, self.semantic_rank);
            lemma_fused_bounds(other.smoothing, other.lexical_rank, other.semantic_rank);
            assert(na * db <= 0x4_0000_0000 * 0x4_0000_0000_0000_0000) by (nonlinear_arith)
                requires
                    0 <= na <= 0x4_0000_0000,
                    0 <= db <= 0x4_0000_0000_0000_0000,
            ;
            assert(nb * da <= 0x4_0000_0000 * 0x4_0000_0000_0000_0000) by (nonlinear_arith)
                requires
                    0 <= nb <= 0x4_0000_0000,
                    0 <= da <= 0x4_0000_0000_0000_0000,
            ;
        }
        let left: u128 = na * db;
        let right: u128 = nb * da;
        if left != right {
            left > right
        } else {
            self.meta.ties_before(&other.meta)
        }
    }
}

impl RankLaws for Fused {
    proof fn lemma_asymmetric(a: FusedView, b: FusedView) {
        lemma_tie_order(a.meta, b.meta, a.meta);
    }

    proof fn lemma_not_before_chain(a: FusedView, b: FusedView, c: FusedView) {
        lemma_fused_bounds(a.smoothing, a.lexical_rank, a.semantic_rank);
        lemma_fused_bounds(b.smoothing, b.lexical_rank, b.semantic_rank);
        lemma_fused_bounds(c.smoothing, c.lexical_rank, c.semantic_rank);
        lemma_ratio_order(a.num(), a.den(), b.num(), b.den(), c.num(), c.den());
        lemma_tie_order(a.meta, b.meta, c.meta);
        lemma_tie_order(c.meta, b.meta, a.meta);
        lemma_tie_order(a.meta, c.meta, b.meta);
    }
}

/// The 1-based position of the first occurrence of `id` in `ids`, 0 where
/// there is none.
pub open spec fn rank_of(ids: Seq<u64>, id: u64) -> int
    decreases ids.len(),
{
    if ids.len() == 0 {
        0
    } else if ids[0] == id {
        1
    } else {
        let r = rank_of(ids.drop_first(), id);
        if r == 0 {
            0
        } else {
            r + 1
        }
    }
}

/// A rank as results carry it: ranks beyond the 32-bit range count as the
/// last rank in it.
pub open spec fn clamp_rank(r: int) -> u32 {
    if r > u32::MAX {
        u32::MAX
    } else {
        r as u32
    }
}

/// The chunk ids of a ranking, in order.
pub open spec fn ids(s: Seq<MetaView>) -> Seq<u64> {
    Seq::new(s.len(), |i: int| s[i].chunk_id)
}

/// A rank counted from position `i` on, as a rank in the whole list.
pub open spec fn shifted(i: int, r: int) -> int {
    if r == 0 {
        0
    } else {
        i + r
    }
}

/// A rank lies within the list, the chunk at that rank is the one asked
/// for, and a rank of 0 says that the list does not hold it.
pub proof fn lemma_rank_of_range(ids: Seq<u64>, id: u64)
    ensures
        0 <= rank_of(ids, id) <= ids.len(),
        rank_of(ids, id) > 0 ==> ids[rank_of(ids, id) - 1] == id,
        rank_of(ids, id) == 0 ==> forall|j: int| 0 <= j < ids.len() ==> ids[j] != id,
    decreases ids.len(),
{
    if ids.len() > 0 && ids[0] != id {
        lemma_rank_of_range(ids.drop_first(), id);
        let r = rank_of(ids.drop_first(), id);
        if r > 0 {
            assert(ids.drop_first()[r - 1] == ids[r]);
        } else {
            assert forall|j: int| 0 <= j < ids.len() implies ids[j] != id by {
                if j > 0 {
                    assert(ids.drop_first()[j - 1] == ids[j]);
                }
            }
        }
    }
}

/// Finds the rank of `id` in `ids`.
pub fn find_rank(ids: &Vec<u64>, id: u64) -> (r: u32)
    ensures
        r == clamp_rank(rank_of(ids@, id)),
{
    let mut i: usize = 0;
    assert(ids@.skip(0) =~= ids@);
    while i < ids.len()
        invariant
            i <= ids.len(),
            rank_of(ids@, id) == shifted(i as int, rank_of(ids@.skip(i as int), id)),
        decreases ids.len() - i,
    {
        if ids[i] == id {
            return if i >= 0xffff_ffff {
                u32::MAX
            } else {
                (i + 1) as u32
            };
        }
        assert(ids@.skip(i as int).drop_first() =~= ids@.skip(i + 1));
        assert(ids@.skip(i as int)[0] == ids@[i as int]);
        proof {
            lemma_rank_of_range(ids@.skip(i + 1), id);
        }
        i += 1;
    }
    0
}

/// The results that the lexical ranking contributes: each of its entries
/// with its rank there and its rank in the semantic ranking.
pub open spec fn lexical_part(lex: Seq<MetaView>, sem_ids: Seq<u64>, k: u32) -> Seq<FusedView> {
    Seq::new(
        lex.len(),
        |i: int|
            FusedView {
                meta: lex[i],
                lexical_rank: clamp_rank(i + 1),
                semantic_rank: clamp_rank(rank_of(sem_ids, lex[i].chunk_id)),
                smoothing: k,
            },
    )
}

/// The results that the first `n` entries of the semantic ranking
/// contribute: those that the lexical ranking does not hold.
pub open spec fn semantic_part(sem: Seq<MetaView>, lex_ids: Seq<u64>, k: u32, n: int) -> Seq<
    FusedView,
>
    decreases n,
{
    if n <= 0 {
        Seq::empty()
    } else {
        let rest = semantic_part(sem, lex_ids, k, n - 1);
        if rank_of(lex_ids, sem[n - 1].chunk_id) == 0 {
            rest.push(
                FusedView {
                    meta: sem[n - 1],
                    lexical_rank: 0,
                    semantic_rank: clamp_rank(n),
                    smoothing: k,
                },
            )
        } else {
            rest
        }
    }
}

/// Every chunk of either ranking, once, with its two ranks.
pub open spec fn pool(lex: Seq<MetaView>, sem: Seq<MetaView>, k: u32) -> Seq<FusedView> {
    lexical_part(lex, ids(sem), k) + semantic_part(sem, ids(lex), k, sem.len() as int)
}

/// Reciprocal-rank fusion of two rankings: the chunks of both, ordered by
/// the sum of `1/(k + rank)` over the rankings that hold them, the higher
/// sum first and equal sums by the tie-break.
pub open spec fn fusion(lex: Seq<MetaView>, sem: Seq<MetaView>, k: u32) -> Seq<FusedView> {
    ranked::<Fused>(pool(lex, sem, k))
}

/// The chunk ids of a ranking.
pub fn ids_of(list: &Vec<Meta>) -> (out: Vec<u64>)
    ensures
        out@ == ids(views(list@)),
{
    let mut out: Vec<u64> = Vec::new();
    let mut i: usize = 0;
    while i < list.len()
        invariant
            i <= list.len(),
            out.len() == i,
            forall|j: int| 0 <= j < i ==> out[j] == list[j].chunk_id,
        decreases list.len() - i,
    {
        out.push(list[i].chunk_id);
        i += 1;
    }
    assert(out@ =~= ids(views(list@)));
    out
}

/// A position in a list as a 1-based rank.
pub fn rank_at(i: usize) -> (r: u32)
    ensures
        r == clamp_rank(i + 1),
{
    if i >= 0xffff_ffff {
        u32::MAX
    } else {
        (i + 1) as u32
    }
}

/// Fuses a lexical and a semantic ranking by reciprocal ranks with the
/// smoothing constant `k`.
pub fn fuse(lexical: Vec<Meta>, semantic: Vec<Meta>, k: u32) -> (out: Vec<Fused>)
    ensures
        views(out@) == fusion(views(lexical@), views(semantic@), k),
{
    let lex_ids = ids_of(&lexical);
    let sem_ids = ids_of(&semantic);
    let ghost lex = views(lexical@);
    let ghost sem = views(semantic@);
    let lexical_len = lexical.len();
    let semantic_len = semantic.len();
    let mut all: Vec<Fused> = Vec::new();
    let mut i: usize = 0;
    for m in it: lexical
        invariant
            i == it.index(),
            it.seq().len() == lexical_len,
            it.seq() == lexical@,
            lex == views(lexical@),
            sem_ids@ == ids(sem),
            all.len() == i,
            forall|j: int| 0 <= j < i ==> (#[trigger] all[j])@ == lexical_part(lex, ids(sem), k)[j],
    {
        let semantic_rank = find_rank(&sem_ids, m.chunk_id);
        let lexical_rank = rank_at(i);
        all.push(Fused { meta: m, lexical_rank, semantic_rank, smoothing: k });
        assert(i < it.seq().len());
        i += 1;
    }
    assert(views(all@) =~= lexical_part(lex, ids(sem), k));
    let mut n: usize = 0;
    for m in it: semantic
        invariant
            n == it.index(),
            it.seq().len() == semantic_len,
            it.seq() == semantic@,
            sem == views(semantic@),
            lex_ids@ == ids(lex),
            views(all@) == lexical_part(lex, ids(sem), k) + semantic_part(sem, ids(lex), k, n as int),
    {
        let ghost before = views(all@);
        let lexical_rank = find_rank(&lex_ids, m.chunk_id);
        proof {
            lemma_rank_of_range(lex_ids@, m.chunk_id);
        }
        if lexical_rank == 0 {
            let semantic_rank = rank_at(n);
            let f = Fused { meta: m, lexical_rank: 0, semantic_rank, smoothing: k };
            let ghost fv = f@;
            all.push(f);
            assert(views(all@) =~= before.push(fv));
        }
        assert(n < it.seq().len());
        n += 1;
    }
    sort_ranked(all)
}

/// Fusion is a function of the two rankings and the smoothing constant:
/// its result holds the chunks of both rankings, each once for each time
/// the pool holds it, in descending order of the sum of `1/(k + rank)`,
/// equal sums in the order of the tie-break.
pub proof fn lemma_fusion_ordered(lex: Seq<MetaView>, sem: Seq<MetaView>, k: u32)
    ensures
        fusion(lex, sem, k).to_multiset() == pool(lex, sem, k).to_multiset(),
        fusion(lex, sem, k).len() == pool(lex, sem, k).len(),
        forall|i: int, j: int|
            0 <= i < j < fusion(lex, sem, k).len() ==> {
                let a = #[trigger] fusion(lex, sem, k)[i];
                let b = #[trigger] fusion(lex, sem, k)[j];
                &&& a.num() * b.den() >= b.num() * a.den()
                &&& a.num() * b.den() == b.num() * a.den() ==> !tie_before(b.meta, a.meta)
            },
{
    lemma_ranked_permutes::<Fused>(pool(lex, sem, k));
    lemma_ranked_in_order::<Fused>(pool(lex, sem, k));
    let r = fusion(lex, sem, k);
    assert forall|i: int, j: int| 0 <= i < j < r.len() implies {
        let a = #[trigger] r[i];
        let b = #[trigger] r[j];
        &&& a.num() * b.den() >= b.num() * a.den()
        &&& a.num() * b.den() == b.num() * a.den() ==> !tie_before(b.meta, a.meta)
    } by {
        assert(!Fused::outranks(r[j], r[i]));
    }
}

/// Whether no chunk stands twice in a ranking.
pub open spec fn each_once(s: Seq<MetaView>) -> bool {
    forall|i: int, j: int|
        0 <= i < j < s.len() ==> (#[trigger] s[i]).chunk_id != (#[trigger] s[j]).chunk_id
}

/// What the semantic ranking contributes are chunks of it that the
/// lexical ranking does not hold, in their order.
pub proof fn lemma_semantic_part(sem: Seq<MetaView>, lex_ids: Seq<u64>, k: u32, n: int, a: int) -> (j:
    int)
    requires
        0 <= n <= sem.len(),
        0 <= a < semantic_part(sem, lex_ids, k, n).len(),
    ensures
        0 <= j < n,
        semantic_part(sem, lex_ids, k, n)[a].meta == sem[j],
        rank_of(lex_ids, sem[j].chunk_id) == 0,
        forall|b: int|
            0 <= b < a ==> exists|i: int|
                0 <= i < j && (#[trigger] semantic_part(sem, lex_ids, k, n)[b]).meta == sem[i],
    decreases n,
{
    let rest = semantic_part(sem, lex_ids, k, n - 1);
    let all = semantic_part(sem, lex_ids, k, n);
    if rank_of(lex_ids, sem[n - 1].chunk_id) == 0 && a == rest.len() {
        assert forall|b: int| 0 <= b < a implies exists|i: int|
            0 <= i < n - 1 && (#[trigger] all[b]).meta == sem[i] by {
            let i = lemma_semantic_part(sem, lex_ids, k, n - 1, b);
            assert(all[b] == rest[b]);
        }
        n - 1
    } else {
        let j = lemma_semantic_part(sem, lex_ids, k, n - 1, a);
        assert forall|b: int| 0 <= b < a implies exists|i: int|
            0 <= i < j && (#[trigger] all[b]).meta == sem[i] by {
            assert(all[b] == rest[b]);
        }
        j
    }
}

/// Where no chunk stands twice in either ranking, none stands twice in
/// the pool, and of every two results of the pool one ranks before the
/// other.
pub proof fn lemma_pool_decided(lex: Seq<MetaView>, sem: Seq<MetaView>, k: u32)
    requires
        each_once(lex),
        each_once(sem),
    ensures
        all_decided::<Fused>(pool(lex, sem, k)),
{
    let p = pool(lex, sem, k);
    let lp = lexical_part(lex, ids(sem), k);
    let sp = semantic_part(sem, ids(lex), k, sem.len() as int);
    assert forall|i: int, j: int| 0 <= i < j < p.len() implies (#[trigger] p[i]).meta.chunk_id != (
    #[trigger] p[j]).meta.chunk_id by {
        if j < lp.len() {
            assert(p[i] == lp[i] && p[j] == lp[j]);
        } else if i < lp.len() {
            assert(p[i] == lp[i]);
            assert(p[j] == sp[j - lp.len()]);
            let m = lemma_semantic_part(sem, ids(lex), k, sem.len() as int, j - lp.len());
            lemma_rank_of_range(ids(lex), sem[m].chunk_id);
            assert(ids(lex)[i] == lex[i].chunk_id);
        } else {
            let a = i - lp.len();
            let b = j - lp.len();
            assert(p[i] == sp[a] && p[j] == sp[b]);
            let m = lemma_semantic_part(sem, ids(lex), k, sem.len() as int, b);
            let w = choose|w: int| 0 <= w < m && sp[a].meta == sem[w];
            assert(sem[w].chunk_id != sem[m].chunk_id);
        }
    }
    assert forall|i: int, j: int| 0 <= i < p.len() && 0 <= j < p.len() && i != j implies p[i] != p[j]
        && (#[trigger] Fused::outranks(p[i], p[j]) || Fused::outranks(p[j], p[i])) by {
        if i < j {
            assert(p[i].meta.chunk_id != p[j].meta.chunk_id);
        } else {
            assert(p[j].meta.chunk_id != p[i].meta.chunk_id);
        }
        lemma_tie_order(p[i].meta, p[j].meta, p[i].meta);
    }
}

/// The fused order is the one order that the formula allows: where no
/// chunk stands twice in either ranking, every fused result ranks
/// strictly before each one behind it, and any sequence that holds the
/// results of the pool, each once, in such an order is the fusion.
pub proof fn lemma_fusion_is_the_ranking(
    lex: Seq<MetaView>,
    sem: Seq<MetaView>,
    k: u32,
    r: Seq<FusedView>,
)
    requires
        each_once(lex),
        each_once(sem),
        strictly_ranked::<Fused>(r),
        r.to_multiset() == pool(lex, sem, k).to_multiset(),
    ensures
        strictly_ranked::<Fused>(fusion(lex, sem, k)),
        r == fusion(lex, sem, k),
{
    lemma_pool_decided(lex, sem, k);
    lemma_ranked_strict::<Fused>(pool(lex, sem, k));
    lemma_ranked_permutes::<Fused>(pool(lex, sem, k));
    lemma_ranking_unique::<Fused>(r, fusion(lex, sem, k));
}

/// The score of a search result, by the mode that made it.
#[derive(Clone, Copy, Debug)]
pub enum Score {
    /// The relevance of a lexical hit, in thousandths.
    Lexical(u64),
    /// The parts of a cosine similarity:
    /// `dot / sqrt(norm_sq * query_norm_sq)`.
    Cosine { dot: i64, norm_sq: u64, query_norm_sq: u64 },
    /// A fused score as the ratio `num / den`.
    Fused { num: u64, den: u128 },
}

/// One result of a search.
#[derive(Debug)]
pub struct SearchResult {
    pub meta: Meta,
    pub score: Score,
    pub snippet: Vec<u8>,
    pub structural_path: Vec<u8>,
}

/// A `SearchResult` as contracts see it.
pub struct SearchResultView {
    pub meta: MetaView,
    pub score: Score,
    pub snippet: Seq<u8>,
    pub structural_path: Seq<u8>,
}

impl View for SearchResult {
    type V = SearchResultView;

    open spec fn view(&self) -> SearchResultView {
        SearchResultView {
            meta: self.meta@,
            score: self.score,
            snippet: self.snippet@,
            structural_path: self.structural_path@,
        }
    }
}

/// The result that a lexical hit becomes.
pub open spec fn from_hit(h: HitView) -> SearchResultView {
    SearchResultView {
        meta: h.meta,
        score: Score::Lexical(h.score),
        snippet: h.snippet,
        structural_path: h.structural_path,
    }
}

/// The result for the chunk `meta` with the score `score`: its snippet
/// and breadcrumb are those of the chunk's entry in the lexical index,
/// and empty where the index holds none.
pub open spec fn described(lex: Seq<EntryView>, meta: MetaView, score: Score) -> SearchResultView {
    let i = by_chunk(lex, meta.chunk_id, 0);
    SearchResultView {
        meta,
        score,
        snippet: if i < lex.len() {
            snippet_of(lex[i].text)
        } else {
            Seq::empty()
        },
        structural_path: if i < lex.len() {
            lex[i].structural_path
        } else {
            Seq::empty()
        },
    }
}

/// The result that a neighbour becomes.
pub open spec fn from_neighbor(lex: Seq<EntryView>, n: NeighborView) -> SearchResultView {
    described(
        lex,
        n.meta,
        Score::Cosine { dot: n.dot, norm_sq: n.norm_sq, query_norm_sq: n.query_norm_sq },
    )
}

/// The result that a fused result becomes.
pub open spec fn from_fused(lex: Seq<EntryView>, f: FusedView) -> SearchResultView {
    described(lex, f.meta, Score::Fused { num: f.num() as u64, den: f.den() as u128 })
}

/// The identities of lexical hits, in order.
pub open spec fn hit_metas(hits: Seq<HitView>) -> Seq<MetaView> {
    Seq::new(hits.len(), |i: int| hits[i].meta)
}

/// The identities of neighbours, in order.
pub open spec fn neighbor_metas(ns: Seq<NeighborView>) -> Seq<MetaView> {
    Seq::new(ns.len(), |i: int| ns[i].meta)
}

/// The results of a lexical search.
pub open spec fn lexical_results(lex: Seq<EntryView>, q: Seq<ClauseView>, f: Filters) -> Seq<
    SearchResultView,
> {
    let hits = search(lex, q, f);
    Seq::new(hits.len(), |i: int| from_hit(hits[i]))
}

/// The results of a semantic search.
pub open spec fn semantic_results(
    lex: Seq<EntryView>,
    vectors: Seq<StoredVectorView>,
    query: Seq<i16>,
    model: Seq<u8>,
    f: Filters,
) -> Seq<SearchResultView> {
    let ns = nearest_to(vectors, query, model, f);
    Seq::new(ns.len(), |i: int| from_neighbor(lex, ns[i]))
}

/// The results of a hybrid search: the lexical and the semantic ranking,
/// fused by reciprocal ranks with the smoothing constant `k`.
pub open spec fn hybrid_results(
    lex: Seq<EntryView>,
    vectors: Seq<StoredVectorView>,
    q: Seq<ClauseView>,
    query: Seq<i16>,
    model: Seq<u8>,
    f: Filters,
    k: u32,
) -> Seq<SearchResultView> {
    let fused = fusion(
        hit_metas(search(lex, q, f)),
        neighbor_metas(nearest_to(vectors, query, model, f)),
        k,
    );
    Seq::new(fused.len(), |i: int| from_fused(lex, fused[i]))
}

/// The first position from `j` on of a result of repository `repo_id`.
pub open spec fn first_of(rs: Seq<SearchResultView>, repo_id: u64, j: int) -> int
    decreases rs.len() - j,
{
    if 0 <= j < rs.len() && rs[j].meta.repo_id != repo_id {
        first_of(rs, repo_id, j + 1)
    } else {
        j
    }
}

/// A result with the bucket of its repository: the position of the best
/// result of that repository.
#[derive(Debug)]
pub struct Bucketed {
    pub bucket: usize,
    pub result: SearchResult,
}

impl View for Bucketed {
    type V = (usize, SearchResultView);

    open spec fn view(&self) -> (usize, SearchResultView) {
        (self.bucket, self.result@)
    }
}

impl Ranked for Bucketed {
    open spec fn rankable(a: (usize, SearchResultView)) -> bool {
        true
    }

    /// The earlier bucket first; results of one bucket keep their order.
    open spec fn outranks(a: (usize, SearchResultView), b: (usize, SearchResultView)) -> bool {
        a.0 < b.0
    }

    fn ranks_before(&self, other: &Bucketed) -> (r: bool) {
        self.bucket < other.bucket
    }
}

impl RankLaws for Bucketed {
    proof fn lemma_asymmetric(a: (usize, SearchResultView), b: (usize, SearchResultView)) {
    }

    proof fn lemma_not_before_chain(
        a: (usize, SearchResultView),
        b: (usize, SearchResultView),
        c: (usize, SearchResultView),
    ) {
    }
}

/// The results, each with its bucket.
pub open spec fn bucketed(rs: Seq<SearchResultView>) -> Seq<(usize, SearchResultView)> {
    Seq::new(rs.len(), |i: int| (first_of(rs, rs[i].meta.repo_id, 0) as usize, rs[i]))
}

/// The results grouped by repository: the buckets in the order of their
/// best results, the results of a bucket in the order they had.
pub open spec fn grouped(rs: Seq<SearchResultView>) -> Seq<SearchResultView> {
    let sorted = ranked::<Bucketed>(bucketed(rs));
    Seq::new(sorted.len(), |i: int| sorted[i].1)
}

/// The final list: grouped where asked for, then cut to `limit`.
pub open spec fn finished(rs: Seq<SearchResultView>, group: bool, limit: usize) -> Seq<
    SearchResultView,
> {
    limited(
        if group {
            grouped(rs)
        } else {
            rs
        },
        limit,
    )
}

/// Grouping keeps every result, each as often as it came, and puts the
/// buckets in the order of their best results.
pub proof fn lemma_grouped(rs: Seq<SearchResultView>)
    ensures
        grouped(rs).len() == rs.len(),
        ranked::<Bucketed>(bucketed(rs)).to_multiset() == bucketed(rs).to_multiset(),
        forall|i: int, j: int|
            0 <= i < j < rs.len() ==> (#[trigger] ranked::<Bucketed>(bucketed(rs))[i]).0 <= (
            #[trigger] ranked::<Bucketed>(bucketed(rs))[j]).0,
{
    lemma_ranked_permutes::<Bucketed>(bucketed(rs));
    lemma_ranked_in_order::<Bucketed>(bucketed(rs));
    let s = ranked::<Bucketed>(bucketed(rs));
    assert forall|i: int, j: int| 0 <= i < j < rs.len() implies (#[trigger] s[i]).0 <= (
    #[trigger] s[j]).0 by {
        assert(!Bucketed::outranks(s[j], s[i]));
    }
}

/// Groups results by repository.
pub fn group_by_repo(results: Vec<SearchResult>) -> (out: Vec<SearchResult>)
    ensures
        views(out@) == grouped(views(results@)),
{
    let ghost rs = views(results@);
    let mut repos: Vec<u64> = Vec::new();
    let mut k: usize = 0;
    while k < results.len()
        invariant
            k <= results.len(),
            rs == views(results@),
            repos.len() == k,
            forall|m: int| 0 <= m < k ==> (#[trigger] repos[m]) == rs[m].meta.repo_id,
        decreases results.len() - k,
    {
        assert(rs[k as int] == results[k as int]@);
        repos.push(results[k].meta.repo_id);
        k += 1;
    }
    let count = results.len();
    let mut tagged: Vec<Bucketed> = Vec::new();
    let mut i: usize = 0;
    for r in it: results
        invariant
            i == it.index(),
            it.seq() == results@,
            it.seq().len() == count,
            rs == views(results@),
            repos.len() == count,
            forall|m: int| 0 <= m < count ==> (#[trigger] repos[m]) == rs[m].meta.repo_id,
            tagged.len() == i,
            forall|m: int| 0 <= m < i ==> (#[trigger] tagged[m])@ == bucketed(rs)[m],
    {
        assert(rs[i as int] == r@);
        let repo_id = r.meta.repo_id;
        let mut j: usize = 0;
        while j < count && repos[j] != repo_id
            invariant
                j <= count,
                repos.len() == count,
                count == rs.len(),
                forall|m: int| 0 <= m < count ==> (#[trigger] repos[m]) == rs[m].meta.repo_id,
                first_of(rs, repo_id, j as int) == first_of(rs, repo_id, 0),
            decreases count - j,
        {
            j += 1;
        }
        tagged.push(Bucketed { bucket: j, result: r });
        i += 1;
    }
    assert(views(tagged@) =~= bucketed(rs));
    let sorted = sort_ranked(tagged);
    let ghost sv = views(sorted@);
    let total = sorted.len();
    let mut out: Vec<SearchResult> = Vec::new();
    let mut n: usize = 0;
    for b in it: sorted
        invariant
            n == it.index(),
            it.seq() == sorted@,
            it.seq().len() == total,
            sv == views(sorted@),
            out.len() == n,
            forall|m: int| 0 <= m < n ==> (#[trigger] out[m])@ == sv[m].1,
    {
        assert(sv[n as int] == b@);
        out.push(b.result);
        n += 1;
    }
    assert(views(out@) =~= grouped(rs));
    out
}

/// Groups results where asked for and cuts them to `limit`.
pub fn finish(results: Vec<SearchResult>, group: bool, limit: usize) -> (out: Vec<SearchResult>)
    ensures
        views(out@) == finished(views(results@), group, limit),
{
    let mut out = if group {
        group_by_repo(results)
    } else {
        results
    };
    let ghost full = views(out@);
    out.truncate(limit);
    assert(views(out@) =~= limited(full, limit));
    out
}

/// What is asked of a search.
#[derive(Debug)]
pub struct SearchRequest {
    pub query: Vec<u8>,
    pub mode: SearchMode,
    pub filters: Filters,
    pub limit: usize,
    pub group_by_repo: bool,
}

/// The query text as the embedding model sees it: the vector that the
/// model `model_id` made of it.
#[derive(Debug)]
pub struct QueryVector {
    pub model_id: Vec<u8>,
    pub vector: Vec<i16>,
}

/// The answer to a search. `degraded` says that a semantic or hybrid
/// search was answered from the lexical index alone, for want of a query
/// vector.
#[derive(Debug)]
pub struct SearchOutcome {
    pub results: Vec<SearchResult>,
    pub degraded: bool,
}

/// Whether a search of mode `mode` is answered from the lexical index
/// alone for want of a query vector.
pub open spec fn degrades(mode: SearchMode, has_vector: bool) -> bool {
    mode != SearchMode::Lexical && !has_vector
}

/// The answer to a search over the lexical entries `lex` and the stored
/// vectors `vectors`, with the smoothing constant `k`. Where the embedding
/// model gave no query vector, a semantic or hybrid search falls back on
/// the lexical mode. A search that consults the lexical index fails on a
/// query text with a quote left open.
pub open spec fn answer(
    lex: Seq<EntryView>,
    vectors: Seq<StoredVectorView>,
    k: u32,
    query: Seq<u8>,
    mode: SearchMode,
    f: Filters,
    limit: usize,
    group: bool,
    vector: Option<(Seq<u8>, Seq<i16>)>,
) -> Result<(Seq<SearchResultView>, bool), QueryError> {
    match vector {
        Some(v) if mode == SearchMode::Semantic => Ok(
            (finished(semantic_results(lex, vectors, v.1, v.0, f), group, limit), false),
        ),
        Some(v) if mode == SearchMode::Hybrid => match parse(query) {
            Some(q) => Ok(
                (finished(hybrid_results(lex, vectors, q, v.1, v.0, f, k), group, limit), false),
            ),
            None => Err(QueryError::UnbalancedQuote),
        },
        _ => match parse(query) {
            Some(q) => Ok(
                (
                    finished(lexical_results(lex, q, f), group, limit),
                    degrades(mode, vector is Some),
                ),
            ),
            None => Err(QueryError::UnbalancedQuote),
        },
    }
}

/// The result for the chunk `meta` with the score `score`.
pub fn describe(lexical: &LexicalIndex, meta: Meta, score: Score) -> (r: SearchResult)
    ensures
        r@ == described(lexical@, meta@, score),
{
    match lexical.find_chunk(meta.chunk_id) {
        Some(i) => {
            let e = lexical.entry(i);
            let mut snippet = copy_bytes(&e.text);
            snippet.truncate(SNIPPET_BYTES);
            assert(snippet@ =~= snippet_of(e.text@));
            SearchResult { meta, score, snippet, structural_path: copy_bytes(&e.structural_path) }
        },
        None => SearchResult { meta, score, snippet: Vec::new(), structural_path: Vec::new() },
    }
}

/// The results that lexical hits become.
pub fn hits_to_results(hits: Vec<Hit>) -> (out: Vec<SearchResult>)
    ensures
        views(out@) == Seq::new(hits.len() as nat, |i: int| from_hit(views(hits@)[i])),
{
    let ghost hv = views(hits@);
    let count = hits.len();
    let mut out: Vec<SearchResult> = Vec::new();
    let mut n: usize = 0;
    for h in it: hits
        invariant
            n == it.index(),
            it.seq() == hits@,
            it.seq().len() == count,
            hv == views(hits@),
            out.len() == n,
            forall|m: int| 0 <= m < n ==> (#[trigger] out[m])@ == from_hit(hv[m]),
    {
        assert(hv[n as int] == h@);
        out.push(
            SearchResult {
                meta: h.meta,
                score: Score::Lexical(h.score),
                snippet: h.snippet,
                structural_path: h.structural_path,
            },
        );
        n += 1;
    }
    assert(views(out@) =~= Seq::new(count as nat, |i: int| from_hit(hv[i])));
    out
}

/// The identities of lexical hits.
pub fn metas_of_hits(hits: Vec<Hit>) -> (out: Vec<Meta>)
    ensures
        views(out@) == hit_metas(views(hits@)),
{
    let ghost hv = views(hits@);
    let count = hits.len();
    let mut out: Vec<Meta> = Vec::new();
    let mut n: usize = 0;
    for h in it: hits
        invariant
            n == it.index(),
            it.seq() == hits@,
            it.seq().len() == count,
            hv == views(hits@),
            out.len() == n,
            forall|m: int| 0 <= m < n ==> (#[trigger] out[m])@ == hv[m].meta,
    {
        assert(hv[n as int] == h@);
        out.push(h.meta);
        n += 1;
    }
    assert(views(out@) =~= hit_metas(hv));
    out
}

/// The identities of neighbours.
pub fn metas_of_neighbors(ns: Vec<Neighbor>) -> (out: Vec<Meta>)
    ensures
        views(out@) == neighbor_metas(views(ns@)),
{
    let ghost nv = views(ns@);
    let count = ns.len();
    let mut out: Vec<Meta> = Vec::new();
    let mut n: usize = 0;
    for x in it: ns
        invariant
            n == it.index(),
            it.seq() == ns@,
            it.seq().len() == count,
            nv == views(ns@),
            out.len() == n,
            forall|m: int| 0 <= m < n ==> (#[trigger] out[m])@ == nv[m].meta,
    {
        assert(nv[n as int] == x@);
        out.push(x.meta);
        n += 1;
    }
    assert(views(out@) =~= neighbor_metas(nv));
    out
}

/// The hybrid searcher: it answers searches over a lexical index and an
/// embedding store, and fuses with the smoothing constant `smoothing`.
#[derive(Clone, Copy, Debug)]
pub struct Searcher {
    pub smoothing: u32,
}

impl Searcher {
    /// A searcher with the default smoothing constant.
    pub fn new() -> (r: Searcher)
        ensures
            r.smoothing == DEFAULT_SMOOTHING,
    {
        Searcher { smoothing: DEFAULT_SMOOTHING }
    }

    /// All results of a semantic search.
    fn semantic(
        &self,
        lexical: &LexicalIndex,
        vectors: &EmbeddingStore,
        v: &QueryVector,
        filters: &Filters,
    ) -> (out: Vec<SearchResult>)
        requires
            vectors.wf(),
        ensures
            views(out@) == semantic_results(lexical@, vectors@, v.vector@, v.model_id@, *filters),
    {
        proof {
            lemma_nearest_len(vectors@, v.vector@, v.model_id@, *filters);
        }
        let ns = vectors.nearest(&v.vector, v.model_id.as_slice(), filters, vectors.len());
        let ghost nv = views(ns@);
        let count = ns.len();
        let mut out: Vec<SearchResult> = Vec::new();
        let mut n: usize = 0;
        for x in it: ns
            invariant
                n == it.index(),
                it.seq() == ns@,
                it.seq().len() == count,
                nv == views(ns@),
                out.len() == n,
                forall|m: int| 0 <= m < n ==> (#[trigger] out[m])@ == from_neighbor(lexical@, nv[m]),
        {
            assert(nv[n as int] == x@);
            let score = Score::Cosine {
                dot: x.dot,
                norm_sq: x.norm_sq,
                query_norm_sq: x.query_norm_sq,
            };
            out.push(describe(lexical, x.meta, score));
            n += 1;
        }
        assert(views(out@) =~= semantic_results(
            lexical@,
            vectors@,
            v.vector@,
            v.model_id@,
            *filters,
        ));
        out
    }

    /// All results of a hybrid search for the parsed query `q`.
    fn hybrid(
        &self,
        lexical: &LexicalIndex,
        vectors: &EmbeddingStore,
        q: &crate::engine::query::Query,
        v: &QueryVector,
        filters: &Filters,
    ) -> (out: Vec<SearchResult>)
        requires
            lexical.wf(),
            vectors.wf(),
        ensures
            views(out@) == hybrid_results(
                lexical@,
                vectors@,
                q@,
                v.vector@,
                v.model_id@,
                *filters,
                self.smoothing,
            ),
    {
        proof {
            lemma_nearest_len(vectors@, v.vector@, v.model_id@, *filters);
            lemma_search_len(lexical@, q@, *filters);
        }
        let hits = lexical.run(q, filters, lexical.len());
        let ns = vectors.nearest(&v.vector, v.model_id.as_slice(), filters, vectors.len());
        let fused = fuse(metas_of_hits(hits), metas_of_neighbors(ns), self.smoothing);
        let ghost fv = views(fused@);
        let count = fused.len();
        let mut out: Vec<SearchResult> = Vec::new();
        let mut n: usize = 0;
        for x in it: fused
            invariant
                n == it.index(),
                it.seq() == fused@,
                it.seq().len() == count,
                fv == views(fused@),
                out.len() == n,
                forall|m: int| 0 <= m < n ==> (#[trigger] out[m])@ == from_fused(lexical@, fv[m]),
        {
            assert(fv[n as int] == x@);
            proof {
                lemma_fused_bounds(x.smoothing, x.lexical_rank, x.semantic_rank);
            }
            let score = Score::Fused { num: x.score_num(), den: x.score_den() };
            out.push(describe(lexical, x.meta, score));
            n += 1;
        }
        assert(views(out@) =~= hybrid_results(
            lexical@,
            vectors@,
            q@,
            v.vector@,
            v.model_id@,
            *filters,
            self.smoothing,
        ));
        out
    }

    /// Answers a search. `vector` is what the embedding model made of the
    /// query text, or `None` where the model is not to be had: a semantic
    /// or hybrid search is then answered from the lexical index alone and
    /// the outcome says so.
    pub fn search(
        &self,
        lexical: &LexicalIndex,
        vectors: &EmbeddingStore,
        request: &SearchRequest,
        vector: Option<&QueryVector>,
    ) -> (r: Result<SearchOutcome, QueryError>)
        requires
            lexical.wf(),
            vectors.wf(),
        ensures
            match r {
                Ok(o) => answer(
                    lexical@,
                    vectors@,
                    self.smoothing,
                    request.query@,
                    request.mode,
                    request.filters,
                    request.limit,
                    request.group_by_repo,
                    match vector {
                        Some(v) => Some((v.model_id@, v.vector@)),
                        None => None,
                    },
                ) == Ok::<(Seq<SearchResultView>, bool), QueryError>((views(o.results@), o.degraded)),
                Err(e) => answer(
                    lexical@,
                    vectors@,
                    self.smoothing,
                    request.query@,
                    request.mode,
                    request.filters,
                    request.limit,
                    request.group_by_repo,
                    match vector {
                        Some(v) => Some((v.model_id@, v.vector@)),
                        None => None,
                    },
                ) == Err::<(Seq<SearchResultView>, bool), QueryError>(e),
            },
    {
        match vector {
            Some(v) => {
                if request.mode == SearchMode::Semantic {
                    let all = self.semantic(lexical, vectors, v, &request.filters);
                    return Ok(
                        SearchOutcome {
                            results: finish(all, request.group_by_repo, request.limit),
                            degraded: false,
                        },
                    );
                }
                if request.mode == SearchMode::Hybrid {
                    let q = match parse_query(request.query.as_slice()) {
                        Ok(q) => q,
                        Err(e) => {
                            return Err(e);
                        },
                    };
                    let all = self.hybrid(lexical, vectors, &q, v, &request.filters);
                    return Ok(
                        SearchOutcome {
                            results: finish(all, request.group_by_repo, request.limit),
                            degraded: false,
                        },
                    );
                }
            },
            None => {},
        }
        let q = match parse_query(request.query.as_slice()) {
            Ok(q) => q,
            Err(e) => {
                return Err(e);
            },
        };
        proof {
            lemma_search_len(lexical@, q@, request.filters);
        }
        let hits = lexical.run(&q, &request.filters, lexical.len());
        let all = hits_to_results(hits);
        assert(views(all@) =~= lexical_results(lexical@, q@, request.filters));
        let degraded = request.mode != SearchMode::Lexical && vector.is_none();
        Ok(SearchOutcome { results: finish(all, request.group_by_repo, request.limit), degraded })
    }
}

} // verus!
