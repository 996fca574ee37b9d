//! The lexical index: the chunks of every indexed document with their
//! tokens, and ranked full-text queries over them.

use vstd::prelude::*;
use crate::engine::model::{
    Chunk, ChunkView, FileKind, Filters, Located, Meta, MetaView, Scope, ScopeView, drop_scope,
    lemma_filter_all, lemma_tie_order, limited, outside, tie_before,
};
use crate::engine::query::{
    ClauseKind, ClauseView, Query, QueryError, frequency, hit_at, hits,
    lemma_text_meets_own_query, meets, parse, parse_query,
};
use crate::engine::rank::{
    RankLaws, Ranked, in_rank_order, lemma_ranked_in_order, lemma_ranked_permutes,
    lemma_ranking_unique, ranked, sort_ranked, strictly_ranked,
};
use crate::engine::score::{clause_score, score_clause};
use crate::engine::text::{bytes_eq, tokenize, tokens, views};

verus! {

/// The longest snippet that a hit carries, in bytes.
pub const SNIPPET_BYTES: usize = 160;

/// One chunk as the index holds it.
#[derive(Debug)]
pub struct Entry {
    pub meta: Meta,
    pub ordinal: usize,
    pub start: usize,
    pub end: usize,
    pub text: Vec<u8>,
    pub structural_path: Vec<u8>,
    pub tokens: Vec<Vec<u8>>,
}

/// An `Entry` as contracts see it.
pub struct EntryView {
    pub meta: MetaView,
    pub ordinal: usize,
    pub start: usize,
    pub end: usize,
    pub text: Seq<u8>,
    pub structural_path: Seq<u8>,
    pub tokens: Seq<Seq<u8>>,
}

impl View for Entry {
    type V = EntryView;

    open spec fn view(&self) -> EntryView {
        EntryView {
            meta: self.meta@,
            ordinal: self.ordinal,
            start: self.start,
            end: self.end,
            text: self.text@,
            structural_path: self.structural_path@,
            tokens: views(self.tokens@),
        }
    }
}

impl EntryView {
    /// An entry is sound where it holds the tokens of its text and the
    /// length of its text.
    pub open spec fn wf(self) -> bool {
        self.tokens == tokens(self.text) && self.meta.length == self.text.len()
    }
}

/// Whether every entry of a sequence is sound.
pub open spec fn all_sound(entries: Seq<EntryView>) -> bool {
    forall|i: int| 0 <= i < entries.len() ==> (#[trigger] entries[i]).wf()
}

impl Located for Entry {
    open spec fn repo_of(a: EntryView) -> u64 {
        a.meta.repo_id
    }

    open spec fn path_of(a: EntryView) -> Seq<u8> {
        a.meta.path
    }

    fn repo(&self) -> (r: u64) {
        self.meta.repo_id
    }

    fn path(&self) -> (p: &Vec<u8>) {
        &self.meta.path
    }
}

/// Whether two lists of words hold the same words.
pub fn same_words(a: &Vec<Vec<u8>>, b: &Vec<Vec<u8>>) -> (r: bool)
    ensures
        r == (views(a@) == views(b@)),
{
    if a.len() != b.len() {
        assert(views(a@).len() != views(b@).len());
        return false;
    }
    let mut i: usize = 0;
    while i < a.len()
        invariant
            i <= a.len(),
            a.len() == b.len(),
            forall|k: int| 0 <= k < i ==> (#[trigger] views(a@)[k]) == views(b@)[k],
        decreases a.len() - i,
    {
        assert(views(a@)[i as int] == a[i as int]@);
        assert(views(b@)[i as int] == b[i as int]@);
        if !bytes_eq(a[i].as_slice(), b[i].as_slice()) {
            return false;
        }
        i += 1;
    }
    assert(views(a@) =~= views(b@));
    true
}

impl Entry {
    /// Checks that the entry holds the tokens and the length of its text.
    pub fn is_sound(&self) -> (r: bool)
        ensures
            r == self@.wf(),
    {
        let fresh = tokenize(self.text.as_slice());
        self.meta.length == self.text.len() && same_words(&self.tokens, &fresh)
    }
}

/// One result of a lexical query.
#[derive(Debug)]
pub struct Hit {
    pub meta: Meta,
    pub score: u64,
    pub ordinal: usize,
    pub snippet: Vec<u8>,
    pub structural_path: Vec<u8>,
}

/// A `Hit` as contracts see it.
pub struct HitView {
    pub meta: MetaView,
    pub score: u64,
    pub ordinal: usize,
    pub snippet: Seq<u8>,
    pub structural_path: Seq<u8>,
}

impl View for Hit {
    type V = HitView;

    open spec fn view(&self) -> HitView {
        HitView {
            meta: self.meta@,
            score: self.score,
            ordinal: self.ordinal,
            snippet: self.snippet@,
            structural_path: self.structural_path@,
        }
    }
}

impl Ranked for Hit {
    open spec fn rankable(a: HitView) -> bool {
        true
    }

    /// The higher score first; equal scores by the tie-break.
    open spec fn outranks(a: HitView, b: HitView) -> bool {
        a.score > b.score || (a.score == b.score && tie_before(a.meta, b.meta))
    }

    fn ranks_before(&self, other: &Hit) -> (r: bool) {
        if self.score != other.score {
            self.score > other.score
        } else {
            self.meta.ties_before(&other.meta)
        }
    }
}

impl RankLaws for Hit {
    proof fn lemma_asymmetric(a: HitView, b: HitView) {
        lemma_tie_order(a.meta, b.meta, a.meta);
    }

    proof fn lemma_not_before_chain(a: HitView, b: HitView, c: HitView) {
        lemma_tie_order(a.meta, b.meta, c.meta);
        lemma_tie_order(c.meta, b.meta, a.meta);
        lemma_tie_order(a.meta, c.meta, b.meta);
    }
}

/// The token count of all entries together, capped at the 64-bit range.
pub open spec fn token_total(entries: Seq<EntryView>) -> u64
    decreases entries.len(),
{
    if entries.len() == 0 {
        0
    } else {
        token_total(entries.drop_last()).saturating_add(entries.last().tokens.len() as u64)
    }
}

/// The number of entries that meet a clause.
pub open spec fn doc_frequency(entries: Seq<EntryView>, c: ClauseView) -> nat
    decreases entries.len(),
{
    if entries.len() == 0 {
        0
    } else {
        doc_frequency(entries.drop_last(), c) + if frequency(entries.last().tokens, c) > 0 {
            1nat
        } else {
            0nat
        }
    }
}

/// The score that the first `j` clauses of a query give an entry among
/// `all` entries.
pub open spec fn score_upto(all: Seq<EntryView>, e: EntryView, q: Seq<ClauseView>, j: int) -> u64
    decreases j,
{
    if j <= 0 {
        0
    } else {
        score_upto(all, e, q, j - 1).saturating_add(
            clause_score(
                frequency(e.tokens, q[j - 1]) as int,
                e.tokens.len() as int,
                all.len() as int,
                token_total(all),
                doc_frequency(all, q[j - 1]) as int,
            ) as u64,
        )
    }
}

/// The relevance of an entry to a query among `all` entries: the sum of
/// what each clause adds, capped at the 64-bit range.
pub open spec fn relevance(all: Seq<EntryView>, e: EntryView, q: Seq<ClauseView>) -> u64 {
    score_upto(all, e, q, q.len() as int)
}

/// The snippet of a text: its first `SNIPPET_BYTES` bytes.
pub open spec fn snippet_of(text: Seq<u8>) -> Seq<u8> {
    if text.len() <= SNIPPET_BYTES {
        text
    } else {
        text.take(SNIPPET_BYTES as int)
    }
}

/// The hit that an entry gives for a query among `all` entries.
pub open spec fn hit_of(all: Seq<EntryView>, e: EntryView, q: Seq<ClauseView>) -> HitView {
    HitView {
        meta: e.meta,
        score: relevance(all, e, q),
        ordinal: e.ordinal,
        snippet: snippet_of(e.text),
        structural_path: e.structural_path,
    }
}

/// Whether a query with filters selects an entry.
pub open spec fn selects(e: EntryView, q: Seq<ClauseView>, f: Filters) -> bool {
    f.admits(e.meta.repo_id, e.meta.kind) && meets(e.tokens, q)
}

/// The hits of the first `n` entries, in the entries' order.
pub open spec fn candidates(all: Seq<EntryView>, n: int, q: Seq<ClauseView>, f: Filters) -> Seq<
    HitView,
>
    decreases n,
{
    if n <= 0 {
        Seq::empty()
    } else {
        let rest = candidates(all, n - 1, q, f);
        if selects(all[n - 1], q, f) {
            rest.push(hit_of(all, all[n - 1], q))
        } else {
            rest
        }
    }
}

/// The answer to a query: the hits of all selected entries, ranked.
pub open spec fn search(all: Seq<EntryView>, q: Seq<ClauseView>, f: Filters) -> Seq<HitView> {
    ranked::<Hit>(candidates(all, all.len() as int, q, f))
}

/// The entries that the chunks of one document become: chunk `i` gets the
/// id `first_id + i`.
pub open spec fn entries_of(
    repo_id: u64,
    kind: FileKind,
    path: Seq<u8>,
    first_id: u64,
    chunks: Seq<ChunkView>,
) -> Seq<EntryView> {
    Seq::new(
        chunks.len(),
        |i: int|
            EntryView {
                meta: MetaView {
                    chunk_id: (first_id + i) as u64,
                    repo_id,
                    kind,
                    length: chunks[i].text.len() as usize,
                    path,
                },
                ordinal: chunks[i].ordinal,
                start: chunks[i].start,
                end: chunks[i].end,
                text: chunks[i].text,
                structural_path: chunks[i].structural_path,
                tokens: tokens(chunks[i].text),
            },
    )
}

/// A copy of a byte string.
pub fn copy_bytes(b: &Vec<u8>) -> (r: Vec<u8>)
    ensures
        r@ == b@,
{
    let r = b.clone();
    assert(r@ =~= b@);
    r
}

/// A copy of the bytes of a slice.
pub fn bytes_of(b: &[u8]) -> (r: Vec<u8>)
    ensures
        r@ == b@,
{
    let mut r: Vec<u8> = Vec::new();
    let mut i: usize = 0;
    while i < b.len()
        invariant
            i <= b.len(),
            r@ == b@.take(i as int),
        decreases b.len() - i,
    {
        r.push(b[i]);
        assert(b@.take(i + 1) =~= b@.take(i as int).push(b@[i as int]));
        i += 1;
    }
    assert(b@.take(b.len() as int) =~= b@);
    r
}

/// Where a term stands in one chunk: the chunk's id, how often it holds
/// the term, and the positions of the term among the chunk's tokens.
#[derive(Debug)]
pub struct Posting {
    pub chunk_id: u64,
    pub term_frequency: usize,
    pub positions: Vec<usize>,
}

/// A `Posting` as contracts see it.
pub struct PostingView {
    pub chunk_id: u64,
    pub term_frequency: usize,
    pub positions: Seq<usize>,
}

impl View for Posting {
    type V = PostingView;

    open spec fn view(&self) -> PostingView {
        PostingView {
            chunk_id: self.chunk_id,
            term_frequency: self.term_frequency,
            positions: self.positions@,
        }
    }
}

/// The positions below `n` at which a token sequence holds `term`, in
/// ascending order.
pub open spec fn positions_of(toks: Seq<Seq<u8>>, term: Seq<u8>, n: int) -> Seq<usize>
    decreases n,
{
    if n <= 0 {
        Seq::empty()
    } else if toks[n - 1] == term {
        positions_of(toks, term, n - 1).push((n - 1) as usize)
    } else {
        positions_of(toks, term, n - 1)
    }
}

/// The posting of `term` in the entry `e`, where the entry holds the
/// term.
pub open spec fn posting_in(e: EntryView, term: Seq<u8>) -> Seq<PostingView> {
    let positions = positions_of(e.tokens, term, e.tokens.len() as int);
    if positions.len() > 0 {
        seq![
            PostingView {
                chunk_id: e.meta.chunk_id,
                term_frequency: positions.len() as usize,
                positions,
            },
        ]
    } else {
        Seq::empty()
    }
}

/// The posting list of `term` over the first `n` entries: one posting
/// for each chunk that holds the term, in the entries' order.
pub open spec fn postings_of(entries: Seq<EntryView>, term: Seq<u8>, n: int) -> Seq<PostingView>
    decreases n,
{
    if n <= 0 {
        Seq::empty()
    } else {
        postings_of(entries, term, n - 1) + posting_in(entries[n - 1], term)
    }
}

/// The first position from `i` on of the entry of the chunk `id`, or the
/// number of entries where there is none.
pub open spec fn by_chunk(entries: Seq<EntryView>, id: u64, i: int) -> int
    decreases entries.len() - i,
{
    if 0 <= i < entries.len() && entries[i].meta.chunk_id != id {
        by_chunk(entries, id, i + 1)
    } else {
        i
    }
}

/// Where the entry of the chunk `id` stands: in front of it none has that
/// id, and none at all where the position is the end.
pub proof fn lemma_by_chunk(entries: Seq<EntryView>, id: u64, i: int)
    requires
        0 <= i <= entries.len(),
    ensures
        i <= by_chunk(entries, id, i) <= entries.len(),
        forall|k: int| i <= k < by_chunk(entries, id, i) ==> (#[trigger] entries[k]).meta.chunk_id != id,
        by_chunk(entries, id, i) < entries.len() ==> entries[by_chunk(entries, id, i)].meta.chunk_id
            == id,
    decreases entries.len() - i,
{
    if i < entries.len() && entries[i].meta.chunk_id != id {
        lemma_by_chunk(entries, id, i + 1);
    }
}

/// The lexical index.
pub struct LexicalIndex {
    entries: Vec<Entry>,
}

impl View for LexicalIndex {
    type V = Seq<EntryView>;

    closed spec fn view(&self) -> Seq<EntryView> {
        views(self.entries@)
    }
}

impl LexicalIndex {
    /// The index is sound where every entry is.
    pub open spec fn wf(&self) -> bool {
        all_sound(self@)
    }

    /// An index without entries.
    pub fn new() -> (r: LexicalIndex)
        ensures
            r@ == Seq::<EntryView>::empty(),
            r.wf(),
    {
        let r = LexicalIndex { entries: Vec::new() };
        assert(r@ =~= Seq::<EntryView>::empty());
        r
    }

    /// An index of the entries `entries`, as they were written out by an
    /// earlier run, or none where one of them is not sound: the index is
    /// then corrupt and is to be built anew.
    pub fn restore(entries: Vec<Entry>) -> (r: Option<LexicalIndex>)
        ensures
            r is Some <==> all_sound(views(entries@)),
            r matches Some(index) ==> index@ == views(entries@) && index.wf(),
    {
        let mut i: usize = 0;
        while i < entries.len()
            invariant
                i <= entries.len(),
                forall|k: int| 0 <= k < i ==> (#[trigger] views(entries@)[k]).wf(),
            decreases entries.len() - i,
        {
            assert(views(entries@)[i as int] == entries[i as int]@);
            if !entries[i].is_sound() {
                return None;
            }
            i += 1;
        }
        Some(LexicalIndex { entries })
    }

    /// The number of chunks in the index.
    pub fn len(&self) -> (n: usize)
        ensures
            n == self@.len(),
    {
        self.entries.len()
    }

    /// The entry at position `i`.
    pub fn entry(&self, i: usize) -> (e: &Entry)
        requires
            i < self@.len(),
        ensures
            e@ == self@[i as int],
    {
        &self.entries[i]
    }

    /// The posting list of a term, which is given as the tokens hold it,
    /// in lower case.
    pub fn postings(&self, term: &[u8]) -> (out: Vec<Posting>)
        ensures
            views(out@) == postings_of(self@, term@, self@.len() as int),
    {
        let mut out: Vec<Posting> = Vec::new();
        let mut n: usize = 0;
        assert(views(out@) =~= postings_of(self@, term@, 0));
        while n < self.entries.len()
            invariant
                n <= self.entries.len(),
                views(out@) == postings_of(self@, term@, n as int),
            decreases self.entries.len() - n,
        {
            let e = &self.entries[n];
            assert(self@[n as int] == e@);
            let ghost toks = views(e.tokens@);
            let mut positions: Vec<usize> = Vec::new();
            let mut k: usize = 0;
            while k < e.tokens.len()
                invariant
                    k <= e.tokens.len(),
                    toks == views(e.tokens@),
                    positions@ == positions_of(toks, term@, k as int),
                    positions.len() <= k,
                decreases e.tokens.len() - k,
            {
                assert(toks[k as int] == e.tokens[k as int]@);
                if bytes_eq(e.tokens[k].as_slice(), term) {
                    positions.push(k);
                }
                k += 1;
            }
            let ghost before = views(out@);
            if positions.len() > 0 {
                let p = Posting {
                    chunk_id: e.meta.chunk_id,
                    term_frequency: positions.len(),
                    positions,
                };
                let ghost pv = p@;
                out.push(p);
                assert(views(out@) =~= before + seq![pv]);
            } else {
                assert(views(out@) =~= before + Seq::<PostingView>::empty());
            }
            n += 1;
        }
        out
    }

    /// The position of the entry of the chunk `id`.
    pub fn find_chunk(&self, id: u64) -> (r: Option<usize>)
        ensures
            match r {
                Some(i) => i == by_chunk(self@, id, 0) && i < self@.len(),
                None => by_chunk(self@, id, 0) == self@.len(),
            },
    {
        let mut i: usize = 0;
        while i < self.entries.len()
            invariant
                i <= self.entries.len(),
                by_chunk(self@, id, i as int) == by_chunk(self@, id, 0),
            decreases self.entries.len() - i,
        {
            assert(self@[i as int] == self.entries[i as int]@);
            if self.entries[i].meta.chunk_id == id {
                return Some(i);
            }
            i += 1;
        }
        None
    }

    /// Removes every entry that lies in `scope`.
    pub fn remove(&mut self, scope: &Scope)
        requires
            old(self).wf(),
        ensures
            final(self).wf(),
            final(self)@ == old(self)@.filter(outside::<Entry>(scope@)),
    {
        let mut taken: Vec<Entry> = Vec::new();
        std::mem::swap(&mut self.entries, &mut taken);
        proof {
            lemma_filter_all(views(taken@), outside::<Entry>(scope@), |e: EntryView| e.wf());
        }
        self.entries = drop_scope(taken, scope);
    }

    /// Replaces the entries of the document `path` of repository `repo_id`
    /// by those of `chunks`, which get the ids from `first_id` on. The old
    /// entries leave and the new ones enter in one step.
    pub fn upsert(
        &mut self,
        repo_id: u64,
        kind: FileKind,
        path: &[u8],
        first_id: u64,
        chunks: Vec<Chunk>,
    )
        requires
            old(self).wf(),
            first_id + chunks.len() <= u64::MAX,
        ensures
            final(self).wf(),
            final(self)@ == old(self)@.filter(
                outside::<Entry>(ScopeView::Document(repo_id, path@)),
            ) + entries_of(repo_id, kind, path@, first_id, views(chunks@)),
    {
        let scope = Scope::Document(repo_id, bytes_of(path));
        self.remove(&scope);
        let ghost kept = self@;
        let ghost fresh = entries_of(repo_id, kind, path@, first_id, views(chunks@));
        let count = chunks.len();
        let mut i: usize = 0;
        assert(self@ =~= kept + fresh.take(0));
        for c in it: chunks
            invariant
                i == it.index(),
                it.seq() == chunks@,
                it.seq().len() == count,
                first_id + count <= u64::MAX,
                fresh == entries_of(repo_id, kind, path@, first_id, views(chunks@)),
                self@ == kept + fresh.take(i as int),
                self.wf(),
        {
            let ghost before = self@;
            let toks = tokenize(c.text.as_slice());
            let e = Entry {
                meta: Meta {
                    chunk_id: first_id + i as u64,
                    repo_id,
                    kind,
                    length: c.text.len(),
                    path: bytes_of(path),
                },
                ordinal: c.ordinal,
                start: c.start,
                end: c.end,
                text: c.text,
                structural_path: c.structural_path,
                tokens: toks,
            };
            assert(e@ == fresh[i as int]);
            self.entries.push(e);
            assert(self@ =~= before.push(fresh[i as int]));
            assert(fresh.take(i + 1) =~= fresh.take(i as int).push(fresh[i as int]));
            i += 1;
        }
        assert(fresh.take(count as int) =~= fresh);
    }

    /// The token count of all entries together.
    fn total_tokens(&self) -> (t: u64)
        ensures
            t == token_total(self@),
    {
        let mut t: u64 = 0;
        let mut i: usize = 0;
        while i < self.entries.len()
            invariant
                i <= self.entries.len(),
                t == token_total(self@.take(i as int)),
            decreases self.entries.len() - i,
        {
            assert(self@.take(i + 1).drop_last() =~= self@.take(i as int));
            t = t.saturating_add(self.entries[i].tokens.len() as u64);
            i += 1;
        }
        assert(self@.take(self@.len() as int) =~= self@);
        t
    }

    /// For each clause of `q`, the number of entries that meet it.
    fn doc_frequencies(&self, q: &Query) -> (dfs: Vec<usize>)
        ensures
            dfs.len() == q@.len(),
            forall|j: int| 0 <= j < q@.len() ==> dfs[j] == doc_frequency(self@, #[trigger] q@[j]),
    {
        let mut dfs: Vec<usize> = Vec::new();
        let mut j: usize = 0;
        while j < q.clauses.len()
            invariant
                j <= q.clauses.len(),
                dfs.len() == j,
                forall|m: int| 0 <= m < j ==> dfs[m] == doc_frequency(self@, #[trigger] q@[m]),
            decreases q.clauses.len() - j,
        {
            let mut n: usize = 0;
            let mut i: usize = 0;
            while i < self.entries.len()
                invariant
                    i <= self.entries.len(),
                    j < q.clauses.len(),
                    n <= i,
                    n == doc_frequency(self@.take(i as int), q@[j as int]),
                decreases self.entries.len() - i,
            {
                assert(self@.take(i + 1).drop_last() =~= self@.take(i as int));
                if q.clauses[j].count_in(&self.entries[i].tokens) > 0 {
                    n += 1;
                }
                i += 1;
            }
            assert(self@.take(self@.len() as int) =~= self@);
            dfs.push(n);
            j += 1;
        }
        dfs
    }

    /// The relevance of entry `i` to `q`.
    fn score_entry(&self, i: usize, q: &Query, total: u64, dfs: &Vec<usize>) -> (s: u64)
        requires
            i < self@.len(),
            total == token_total(self@),
            dfs.len() == q@.len(),
            forall|j: int| 0 <= j < q@.len() ==> dfs[j] == doc_frequency(self@, #[trigger] q@[j]),
        ensures
            s == relevance(self@, self@[i as int], q@),
    {
        let e = &self.entries[i];
        let mut s: u64 = 0;
        let mut j: usize = 0;
        while j < q.clauses.len()
            invariant
                j <= q.clauses.len(),
                i < self@.len(),
                e@ == self@[i as int],
                total == token_total(self@),
                dfs.len() == q@.len(),
                forall|m: int|
                    0 <= m < q@.len() ==> dfs[m] == doc_frequency(self@, #[trigger] q@[m]),
                s == score_upto(self@, self@[i as int], q@, j as int),
            decreases q.clauses.len() - j,
        {
            let tf = q.clauses[j].count_in(&e.tokens);
            assert(q@[j as int] == q.clauses[j as int]@);
            let part = score_clause(tf, e.tokens.len(), self.entries.len(), total, dfs[j]);
            s = s.saturating_add(part);
            j += 1;
        }
        s
    }

    /// Answers a parsed query: the hits of the entries that pass the
    /// filters and match, ranked, and the first `limit` of them.
    pub fn run(&self, q: &Query, filters: &Filters, limit: usize) -> (hits: Vec<Hit>)
        requires
            self.wf(),
        ensures
            views(hits@) == limited(search(self@, q@, *filters), limit),
    {
        let total = self.total_tokens();
        let dfs = self.doc_frequencies(q);
        let mut found: Vec<Hit> = Vec::new();
        let mut i: usize = 0;
        assert(views(found@) =~= candidates(self@, 0, q@, *filters));
        while i < self.entries.len()
            invariant
                i <= self.entries.len(),
                total == token_total(self@),
                dfs.len() == q@.len(),
                forall|m: int|
                    0 <= m < q@.len() ==> dfs[m] == doc_frequency(self@, #[trigger] q@[m]),
                views(found@) == candidates(self@, i as int, q@, *filters),
            decreases self.entries.len() - i,
        {
            let e = &self.entries[i];
            let ghost before = views(found@);
            assert(e@ == self@[i as int]);
            if filters.passes(e.meta.repo_id, e.meta.kind) && q.matches(&e.tokens) {
                let score = self.score_entry(i, q, total, &dfs);
                let mut snippet = copy_bytes(&e.text);
                snippet.truncate(SNIPPET_BYTES);
                assert(snippet@ =~= snippet_of(e.text@));
                let hit = Hit {
                    meta: e.meta.duplicate(),
                    score,
                    ordinal: e.ordinal,
                    snippet,
                    structural_path: copy_bytes(&e.structural_path),
                };
                assert(hit@ == hit_of(self@, self@[i as int], q@));
                found.push(hit);
                assert(views(found@) =~= before.push(hit_of(self@, self@[i as int], q@)));
            }
            i += 1;
        }
        let mut hits = sort_ranked(found);
        let ghost full = views(hits@);
        hits.truncate(limit);
        assert(views(hits@) =~= limited(full, limit));
        hits
    }

    /// Answers a query text. A text with a quote left open is refused and
    /// the index is not consulted.
    pub fn query(&self, text: &[u8], filters: &Filters, limit: usize) -> (r: Result<
        Vec<Hit>,
        QueryError,
    >)
        requires
            self.wf(),
        ensures
            match r {
                Ok(hits) => parse(text@) is Some && views(hits@) == limited(
                    search(self@, parse(text@).unwrap(), *filters),
                    limit,
                ),
                Err(e) => parse(text@) is None,
            },
    {
        match parse_query(text) {
            Ok(q) => Ok(self.run(&q, filters, limit)),
            Err(e) => Err(e),
        }
    }
}

/// The hit of every selected entry among the first `n` stands among the
/// candidates.
pub proof fn lemma_candidates_hold(
    all: Seq<EntryView>,
    n: int,
    q: Seq<ClauseView>,
    f: Filters,
    i: int,
)
    requires
        0 <= i < n <= all.len(),
        selects(all[i], q, f),
    ensures
        candidates(all, n, q, f).contains(hit_of(all, all[i], q)),
    decreases n,
{
    let rest = candidates(all, n - 1, q, f);
    if i == n - 1 {
        assert(rest.push(hit_of(all, all[i], q)).last() == hit_of(all, all[i], q));
    } else {
        lemma_candidates_hold(all, n - 1, q, f, i);
        let k = choose|k: int| 0 <= k < rest.len() && rest[k] == hit_of(all, all[i], q);
        if selects(all[n - 1], q, f) {
            assert(rest.push(hit_of(all, all[n - 1], q))[k] == rest[k]);
        }
    }
}

/// Every candidate is the hit of a selected entry.
pub proof fn lemma_candidates_selected(
    all: Seq<EntryView>,
    n: int,
    q: Seq<ClauseView>,
    f: Filters,
    k: int,
) -> (i: int)
    requires
        n <= all.len(),
        0 <= k < candidates(all, n, q, f).len(),
    ensures
        0 <= i < n,
        selects(all[i], q, f),
        candidates(all, n, q, f)[k] == hit_of(all, all[i], q),
    decreases n,
{
    let rest = candidates(all, n - 1, q, f);
    if selects(all[n - 1], q, f) && k == rest.len() {
        n - 1
    } else {
        lemma_candidates_selected(all, n - 1, q, f, k)
    }
}

/// The answer to a query holds the hit of every entry that passes the
/// filters and matches.
pub proof fn lemma_search_holds(all: Seq<EntryView>, q: Seq<ClauseView>, f: Filters, i: int)
    requires
        0 <= i < all.len(),
        selects(all[i], q, f),
    ensures
        search(all, q, f).contains(hit_of(all, all[i], q)),
{
    broadcast use vstd::seq_lib::group_to_multiset_ensures;

    let c = candidates(all, all.len() as int, q, f);
    lemma_candidates_hold(all, all.len() as int, q, f, i);
    lemma_ranked_permutes::<Hit>(c);
    let h = hit_of(all, all[i], q);
    assert(c.to_multiset().count(h) > 0);
    assert(search(all, q, f).to_multiset().count(h) > 0);
}

/// The answer to a query holds nothing but hits of entries that pass the
/// filters and match, and no hit in it ranks before one in front of it.
pub proof fn lemma_search_sound(all: Seq<EntryView>, q: Seq<ClauseView>, f: Filters)
    ensures
        in_rank_order::<Hit>(search(all, q, f)),
        forall|k: int|
            0 <= k < search(all, q, f).len() ==> exists|i: int|
                0 <= i < all.len() && selects(all[i], q, f) && #[trigger] search(all, q, f)[k]
                    == hit_of(all, all[i], q),
{
    broadcast use vstd::seq_lib::group_to_multiset_ensures;

    let c = candidates(all, all.len() as int, q, f);
    lemma_ranked_permutes::<Hit>(c);
    lemma_ranked_in_order::<Hit>(c);
    let r = search(all, q, f);
    assert forall|k: int| 0 <= k < r.len() implies exists|i: int|
        0 <= i < all.len() && selects(all[i], q, f) && #[trigger] r[k] == hit_of(all, all[i], q) by {
        assert(r.contains(r[k]));
        assert(r.to_multiset().count(r[k]) > 0);
        assert(c.contains(r[k]));
        let m = choose|m: int| 0 <= m < c.len() && c[m] == r[k];
        let i = lemma_candidates_selected(all, all.len() as int, q, f, m);
        assert(0 <= i < all.len() && selects(all[i], q, f) && r[k] == hit_of(all, all[i], q));
    }
}

/// A chunk whose own text is the query is found: where the text parses as
/// a query with at least one clause and the chunk passes the filters, the
/// answer holds its hit, and so do the first `limit` results where `limit`
/// is not below the number of chunks.
pub proof fn lemma_verbatim_recall(all: Seq<EntryView>, i: int, f: Filters, limit: usize)
    requires
        all_sound(all),
        0 <= i < all.len(),
        parse(all[i].text) is Some,
        parse(all[i].text).unwrap().len() > 0,
        f.admits(all[i].meta.repo_id, all[i].meta.kind),
    ensures
        search(all, parse(all[i].text).unwrap(), f).contains(
            hit_of(all, all[i], parse(all[i].text).unwrap()),
        ),
        limit >= all.len() ==> limited(search(all, parse(all[i].text).unwrap(), f), limit).contains(
            hit_of(all, all[i], parse(all[i].text).unwrap()),
        ),
{
    let q = parse(all[i].text).unwrap();
    lemma_text_meets_own_query(all[i].text);
    lemma_search_holds(all, q, f, i);
    lemma_candidates_len(all, all.len() as int, q, f);
    lemma_ranked_permutes::<Hit>(candidates(all, all.len() as int, q, f));
}

/// There are no more candidates than entries.
pub proof fn lemma_candidates_len(all: Seq<EntryView>, n: int, q: Seq<ClauseView>, f: Filters)
    requires
        0 <= n,
    ensures
        candidates(all, n, q, f).len() <= n,
    decreases n,
{
    if n > 0 {
        lemma_candidates_len(all, n - 1, q, f);
    }
}

/// A search that is filtered to a repository of which the index holds no
/// chunk has no results.
pub proof fn lemma_absent_repository_is_silent(
    all: Seq<EntryView>,
    q: Seq<ClauseView>,
    f: Filters,
    repo_id: u64,
)
    requires
        f.repo_id == Some(repo_id),
        forall|i: int| 0 <= i < all.len() ==> (#[trigger] all[i]).meta.repo_id != repo_id,
    ensures
        search(all, q, f).len() == 0,
{
    lemma_search_sound(all, q, f);
    if search(all, q, f).len() > 0 {
        let r = search(all, q, f);
        let i = choose|i: int|
            0 <= i < all.len() && selects(all[i], q, f) && #[trigger] r[0] == hit_of(all, all[i], q);
        assert(all[i].meta.repo_id != repo_id);
    }
}

/// A search has no more results than the index has entries.
pub proof fn lemma_search_len(all: Seq<EntryView>, q: Seq<ClauseView>, f: Filters)
    ensures
        search(all, q, f).len() <= all.len(),
{
    lemma_candidates_len(all, all.len() as int, q, f);
    lemma_ranked_permutes::<Hit>(candidates(all, all.len() as int, q, f));
}

/// A posting counts what a query for its term counts: a chunk holds a
/// term at as many positions as it meets the term's clause.
pub proof fn lemma_positions_count(toks: Seq<Seq<u8>>, term: Seq<u8>, n: int)
    requires
        0 <= n <= toks.len(),
        toks.len() <= usize::MAX,
    ensures
        positions_of(toks, term, n).len() == hits(toks, (ClauseKind::Term, seq![term]), n),
        forall|i: int|
            0 <= i < positions_of(toks, term, n).len() ==> (#[trigger] positions_of(
                toks,
                term,
                n,
            )[i]) < n && toks[positions_of(toks, term, n)[i] as int] == term,
    decreases n,
{
    if n > 0 {
        lemma_positions_count(toks, term, n - 1);
        let c = (ClauseKind::Term, seq![term]);
        let prev = positions_of(toks, term, n - 1);
        let now = positions_of(toks, term, n);
        assert forall|i: int| 0 <= i < now.len() implies (#[trigger] now[i]) < n && toks[now[i] as int]
            == term by {
            if i < prev.len() {
                assert(now[i] == prev[i]);
            }
        }
        if toks[n - 1] == term {
            assert(toks.subrange(n - 1, n) =~= seq![term]);
            assert(hit_at(toks, c, n - 1));
        } else {
            assert(toks.subrange(n - 1, n)[0] != seq![term][0]);
            assert(!hit_at(toks, c, n - 1));
        }
    }
}

/// Whether the entries have chunk ids of their own.
pub open spec fn distinct_ids(all: Seq<EntryView>) -> bool {
    forall|i: int, j: int|
        0 <= i < j < all.len() ==> (#[trigger] all[i]).meta.chunk_id != (
        #[trigger] all[j]).meta.chunk_id
}

/// Where the entries have chunk ids of their own, so have the candidates.
pub proof fn lemma_candidates_distinct(
    all: Seq<EntryView>,
    n: int,
    q: Seq<ClauseView>,
    f: Filters,
)
    requires
        0 <= n <= all.len(),
        distinct_ids(all),
    ensures
        forall|a: int, b: int|
            0 <= a < b < candidates(all, n, q, f).len() ==> (#[trigger] candidates(
                all,
                n,
                q,
                f,
            )[a]).meta.chunk_id != (#[trigger] candidates(all, n, q, f)[b]).meta.chunk_id,
    decreases n,
{
    if n > 0 {
        lemma_candidates_distinct(all, n - 1, q, f);
        let rest = candidates(all, n - 1, q, f);
        let c = candidates(all, n, q, f);
        assert forall|a: int, b: int| 0 <= a < b < c.len() implies (#[trigger] c[a]).meta.chunk_id != (
        #[trigger] c[b]).meta.chunk_id by {
            if b < rest.len() {
                assert(c[a] == rest[a] && c[b] == rest[b]);
            } else {
                let i = lemma_candidates_selected(all, n - 1, q, f, a);
                assert(c[a] == rest[a]);
                assert(all[i].meta.chunk_id != all[n - 1].meta.chunk_id);
            }
        }
    }
}

/// With chunk ids of their own, no two results of a search tie: every
/// result ranks strictly before each result behind it, so that the order
/// of the results is the one order that score and tie-break allow.
pub proof fn lemma_search_strict(all: Seq<EntryView>, q: Seq<ClauseView>, f: Filters)
    requires
        distinct_ids(all),
    ensures
        forall|i: int, j: int|
            0 <= i < j < search(all, q, f).len() ==> #[trigger] Hit::outranks(
                search(all, q, f)[i],
                search(all, q, f)[j],
            ),
{
    let c = candidates(all, all.len() as int, q, f);
    let r = search(all, q, f);
    lemma_candidates_distinct(all, all.len() as int, q, f);
    assert(c.no_duplicates()) by {
        assert forall|i: int, j: int| 0 <= i < c.len() && 0 <= j < c.len() && i != j implies c[i]
            != c[j] by {
            if i < j {
                assert(c[i].meta.chunk_id != c[j].meta.chunk_id);
            } else {
                assert(c[j].meta.chunk_id != c[i].meta.chunk_id);
            }
        }
    }
    c.lemma_multiset_has_no_duplicates();
    lemma_ranked_permutes::<Hit>(c);
    r.lemma_multiset_has_no_duplicates_conv();
    lemma_ranked_in_order::<Hit>(c);
    assert forall|i: int, j: int| 0 <= i < j < r.len() implies #[trigger] Hit::outranks(
        r[i],
        r[j],
    ) by {
        broadcast use vstd::seq_lib::group_to_multiset_ensures;

        assert(!Hit::outranks(r[j], r[i]));
        assert(r[i] != r[j]);
        assert(r.contains(r[i]));
        assert(r.contains(r[j]));
        assert(r.to_multiset().count(r[i]) > 0);
        assert(r.to_multiset().count(r[j]) > 0);
        assert(c.contains(r[i]));
        assert(c.contains(r[j]));
        let a = choose|a: int| 0 <= a < c.len() && c[a] == r[i];
        let b = choose|b: int| 0 <= b < c.len() && c[b] == r[j];
        if a < b {
            assert(c[a].meta.chunk_id != c[b].meta.chunk_id);
        } else if b < a {
            assert(c[b].meta.chunk_id != c[a].meta.chunk_id);
        }
        lemma_tie_order(r[i].meta, r[j].meta, r[i].meta);
    }
}

/// The answer to a search is the one ranking of the matching chunks:
/// where the chunks have ids of their own, any sequence that holds the
/// hits of the selected entries, each once, and in which every hit ranks
/// before each one behind it, is the answer.
pub proof fn lemma_search_is_the_ranking(
    all: Seq<EntryView>,
    q: Seq<ClauseView>,
    f: Filters,
    r: Seq<HitView>,
)
    requires
        distinct_ids(all),
        strictly_ranked::<Hit>(r),
        r.to_multiset() == candidates(all, all.len() as int, q, f).to_multiset(),
    ensures
        r == search(all, q, f),
{
    lemma_search_strict(all, q, f);
    lemma_ranked_permutes::<Hit>(candidates(all, all.len() as int, q, f));
    lemma_ranking_unique::<Hit>(r, search(all, q, f));
}

} // verus!
