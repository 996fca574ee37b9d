//! The chunker: cuts a document into chunks of bounded size along its
//! structure, in line windows with a small overlap where it has none.

use vstd::prelude::*;
use crate::engine::markdown::{
    HeadingView, MarkdownMeta, Outline, breadcrumb, heading_level, headings, level_at,
    parse_markdown,
};
use crate::engine::model::{Chunk, ChunkView, FileKind};
use crate::engine::text::{
    copy_range, find_line_end, found_at, lemma_line_end, line_end, stands_at, views,
};

verus! {

/// How documents are cut: no chunk is longer than `max_bytes`, none holds
/// more than `window_lines` lines, and a chunk that a window's end or the
/// size cut off shares its last `overlap_lines` lines with the next.
#[derive(Clone, Copy, Debug)]
pub struct ChunkConfig {
    pub max_bytes: usize,
    pub window_lines: usize,
    pub overlap_lines: usize,
}

impl ChunkConfig {
    /// A configuration is sound where a chunk may hold a byte and a line
    /// and the overlap is shorter than the window.
    pub open spec fn wf(&self) -> bool {
        self.max_bytes >= 1 && self.window_lines >= 1 && self.overlap_lines < self.window_lines
    }

    /// The configuration with the given limits, or none where it is not
    /// sound.
    pub fn new(max_bytes: usize, window_lines: usize, overlap_lines: usize) -> (r: Option<
        ChunkConfig,
    >)
        ensures
            r is Some <==> (max_bytes >= 1 && window_lines >= 1 && overlap_lines < window_lines),
            r matches Some(c) ==> c.wf() && c.max_bytes == max_bytes && c.window_lines
                == window_lines && c.overlap_lines == overlap_lines,
    {
        if max_bytes >= 1 && window_lines >= 1 && overlap_lines < window_lines {
            Some(ChunkConfig { max_bytes, window_lines, overlap_lines })
        } else {
            None
        }
    }

    /// Chunks of at most 2000 bytes and 40 lines, with 5 lines of overlap.
    pub fn standard() -> (c: ChunkConfig)
        ensures
            c.wf(),
            c.max_bytes == 2000,
            c.window_lines == 40,
            c.overlap_lines == 5,
    {
        ChunkConfig { max_bytes: 2000, window_lines: 40, overlap_lines: 5 }
    }
}

/// The words that open a definition at the start of a line of code, each
/// with the space behind it: def, class, fn, pub, impl, struct, enum,
/// trait, function, func.
pub open spec fn keywords() -> Seq<Seq<u8>> {
    seq![
        seq![0x64u8, 0x65, 0x66, 0x20],
        seq![0x63u8, 0x6c, 0x61, 0x73, 0x73, 0x20],
        seq![0x66u8, 0x6e, 0x20],
        seq![0x70u8, 0x75, 0x62, 0x20],
        seq![0x69u8, 0x6d, 0x70, 0x6c, 0x20],
        seq![0x73u8, 0x74, 0x72, 0x75, 0x63, 0x74, 0x20],
        seq![0x65u8, 0x6e, 0x75, 0x6d, 0x20],
        seq![0x74u8, 0x72, 0x61, 0x69, 0x74, 0x20],
        seq![0x66u8, 0x75, 0x6e, 0x63, 0x74, 0x69, 0x6f, 0x6e, 0x20],
        seq![0x66u8, 0x75, 0x6e, 0x63, 0x20],
    ]
}

/// The words that open a definition.
pub fn definition_keywords() -> (out: Vec<Vec<u8>>)
    ensures
        views(out@) == keywords(),
{
    let mut out: Vec<Vec<u8>> = Vec::new();
    out.push(vec![0x64u8, 0x65, 0x66, 0x20]);
    out.push(vec![0x63u8, 0x6c, 0x61, 0x73, 0x73, 0x20]);
    out.push(vec![0x66u8, 0x6e, 0x20]);
    out.push(vec![0x70u8, 0x75, 0x62, 0x20]);
    out.push(vec![0x69u8, 0x6d, 0x70, 0x6c, 0x20]);
    out.push(vec![0x73u8, 0x74, 0x72, 0x75, 0x63, 0x74, 0x20]);
    out.push(vec![0x65u8, 0x6e, 0x75, 0x6d, 0x20]);
    out.push(vec![0x74u8, 0x72, 0x61, 0x69, 0x74, 0x20]);
    out.push(vec![0x66u8, 0x75, 0x6e, 0x63, 0x74, 0x69, 0x6f, 0x6e, 0x20]);
    out.push(vec![0x66u8, 0x75, 0x6e, 0x63, 0x20]);
    assert(views(out@) =~= keywords()) by {
        assert forall|i: int| 0 <= i < 10 implies views(out@)[i] =~= keywords()[i] by {}
    }
    out
}

/// Whether the line at `p` opens a definition: one of the keywords stands
/// at its start.
pub open spec fn starts_definition(t: Seq<u8>, p: int) -> bool {
    exists|k: int| 0 <= k < keywords().len() && stands_at(t, p, #[trigger] keywords()[k])
}

/// Whether the line at `p` opens a block of the document's structure: a
/// heading in markdown, a definition in code. Other files have no blocks.
pub open spec fn opens_block(t: Seq<u8>, kind: FileKind, p: int) -> bool {
    match kind {
        FileKind::Markdown => heading_level(t, p) > 0,
        FileKind::Code => starts_definition(t, p),
        FileKind::Config => false,
    }
}

/// Decides whether the line at `p` opens a block.
pub fn block_opens(text: &[u8], kind: FileKind, p: usize, words: &Vec<Vec<u8>>) -> (r: bool)
    requires
        p < text.len(),
        views(words@) == keywords(),
    ensures
        r == opens_block(text@, kind, p as int),
{
    match kind {
        FileKind::Markdown => level_at(text, p) > 0,
        FileKind::Config => false,
        FileKind::Code => {
            let mut k: usize = 0;
            while k < words.len()
                invariant
                    k <= words.len(),
                    kind == FileKind::Code,
                    views(words@) == keywords(),
                    forall|m: int|
                        0 <= m < k ==> !stands_at(text@, p as int, #[trigger] keywords()[m]),
                decreases words.len() - k,
            {
                assert(views(words@)[k as int] == words[k as int]@);
                if found_at(text, p, words[k].as_slice()) {
                    return true;
                }
                k += 1;
            }
            false
        },
    }
}

/// Whether a chunk that starts at `a`, holds `lines` lines and reaches `e`
/// stops in front of the line at `e`: that line opens a block, the window
/// is full, or the line would take the chunk over the size limit.
pub open spec fn stops_at(
    t: Seq<u8>,
    kind: FileKind,
    cfg: ChunkConfig,
    a: int,
    e: int,
    lines: int,
) -> bool {
    lines >= 1 && (opens_block(t, kind, e) || lines >= cfg.window_lines || line_end(t, e) - a
        > cfg.max_bytes)
}

/// Where the chunk that starts at `a` ends and how many lines it holds,
/// given that it holds `lines` lines up to `e`. A chunk takes its first
/// line whatever it holds, and then line after line until it stops.
pub open spec fn extent(
    t: Seq<u8>,
    kind: FileKind,
    cfg: ChunkConfig,
    a: int,
    e: int,
    lines: int,
) -> (int, int)
    decreases t.len() - e,
{
    if e < 0 || e >= t.len() || stops_at(t, kind, cfg, a, e, lines) {
        (e, lines)
    } else {
        proof {
            lemma_line_end(t, e);
        }
        extent(t, kind, cfg, a, line_end(t, e), lines + 1)
    }
}

/// Where the `k`-th line behind the line at `a` starts.
pub open spec fn nth_line(t: Seq<u8>, a: int, k: int) -> int
    decreases k,
{
    if k <= 0 {
        a
    } else {
        line_end(t, nth_line(t, a, k - 1))
    }
}

/// Where the chunk behind the one at `a` starts: at the end of that chunk
/// where a block opens there, the text ends there or the chunk has no more
/// lines than the overlap; else `overlap_lines` lines in front of its end.
pub open spec fn next_start(t: Seq<u8>, kind: FileKind, cfg: ChunkConfig, a: int) -> int {
    let (e, lines) = extent(t, kind, cfg, a, a, 0);
    if e < t.len() && !opens_block(t, kind, e) && lines > cfg.overlap_lines && cfg.overlap_lines
        > 0 {
        nth_line(t, a, lines - cfg.overlap_lines)
    } else {
        e
    }
}

/// The lines of the chunk at `a` start one behind the other inside the
/// text, and the chunk ends where the line behind its last one starts.
pub proof fn lemma_extent(
    t: Seq<u8>,
    kind: FileKind,
    cfg: ChunkConfig,
    a: int,
    e: int,
    lines: int,
)
    requires
        0 <= a < t.len(),
        0 <= lines,
        e == nth_line(t, a, lines),
        a <= e <= t.len(),
        lines == 0 <==> e == a,
        forall|j: int| 0 <= j < lines ==> a <= #[trigger] nth_line(t, a, j) < e,
    ensures
        ({
            let (end, count) = extent(t, kind, cfg, a, e, lines);
            &&& a < end <= t.len()
            &&& count >= 1
            &&& count >= lines
            &&& end == nth_line(t, a, count)
            &&& forall|j: int| 0 <= j < count ==> a <= #[trigger] nth_line(t, a, j) < end
            &&& forall|j: int| 1 <= j <= count ==> a < #[trigger] nth_line(t, a, j) <= end
        }),
    decreases t.len() - e,
{
    if e >= t.len() || stops_at(t, kind, cfg, a, e, lines) {
        assert forall|j: int| 1 <= j <= lines implies a < #[trigger] nth_line(t, a, j) <= e by {
            if j < lines {
                lemma_line_end(t, nth_line(t, a, j - 1));
            } else {
                lemma_line_end(t, nth_line(t, a, lines - 1));
            }
        }
    } else {
        lemma_line_end(t, e);
        let le = line_end(t, e);
        assert(nth_line(t, a, lines + 1) == le);
        assert forall|j: int| 0 <= j < lines + 1 implies a <= #[trigger] nth_line(t, a, j)
            < le by {}
        lemma_extent(t, kind, cfg, a, le, lines + 1);
    }
}

/// The chunk behind the one at `a` starts behind `a` and not behind the
/// end of the text.
pub proof fn lemma_next_start(t: Seq<u8>, kind: FileKind, cfg: ChunkConfig, a: int)
    requires
        0 <= a < t.len(),
        cfg.wf(),
    ensures
        a < next_start(t, kind, cfg, a) <= t.len(),
{
    lemma_extent(t, kind, cfg, a, a, 0);
    let (e, lines) = extent(t, kind, cfg, a, a, 0);
    if lines > cfg.overlap_lines && cfg.overlap_lines > 0 {
        assert(a < nth_line(t, a, lines - cfg.overlap_lines) <= e);
    }
}

/// The chunk that starts at `a`: the lines up to its end, cut off at
/// `max_bytes`, under the breadcrumb of `a` in a markdown document.
pub open spec fn chunk_at(
    t: Seq<u8>,
    kind: FileKind,
    cfg: ChunkConfig,
    hs: Seq<HeadingView>,
    a: int,
    ordinal: int,
) -> ChunkView {
    let e = extent(t, kind, cfg, a, a, 0).0;
    let cut = if e - a > cfg.max_bytes {
        a + cfg.max_bytes
    } else {
        e
    };
    ChunkView {
        ordinal: ordinal as usize,
        start: a as usize,
        end: cut as usize,
        text: t.subrange(a, cut),
        structural_path: if kind == FileKind::Markdown {
            breadcrumb(hs, a)
        } else {
            Seq::empty()
        },
    }
}

/// The chunks from the one that starts at `a` on.
pub open spec fn chunks_from(
    t: Seq<u8>,
    kind: FileKind,
    cfg: ChunkConfig,
    hs: Seq<HeadingView>,
    a: int,
    ordinal: int,
) -> Seq<ChunkView>
    decreases t.len() - a,
{
    if a < 0 || a >= t.len() || !cfg.wf() {
        Seq::empty()
    } else {
        proof {
            lemma_next_start(t, kind, cfg, a);
        }
        seq![chunk_at(t, kind, cfg, hs, a, ordinal)] + chunks_from(
            t,
            kind,
            cfg,
            hs,
            next_start(t, kind, cfg, a),
            ordinal + 1,
        )
    }
}

/// The one chunk of an empty document.
pub open spec fn empty_chunk() -> ChunkView {
    ChunkView { ordinal: 0, start: 0, end: 0, text: Seq::empty(), structural_path: Seq::empty() }
}

/// The chunks of a document: one empty chunk for an empty document, else
/// the chunks from the first byte on.
pub open spec fn chunking(t: Seq<u8>, kind: FileKind, cfg: ChunkConfig) -> Seq<ChunkView> {
    if t.len() == 0 {
        seq![empty_chunk()]
    } else {
        chunks_from(t, kind, cfg, headings(t), 0, 0)
    }
}

/// What holds of the chunks from `a` on: each is no longer than
/// `max_bytes`, lies inside the text from `a` on, holds the bytes of its
/// range and has its place in the order as ordinal.
pub proof fn lemma_chunks_from(
    t: Seq<u8>,
    kind: FileKind,
    cfg: ChunkConfig,
    hs: Seq<HeadingView>,
    a: int,
    ordinal: int,
)
    requires
        0 <= a <= t.len(),
        0 <= ordinal,
        ordinal + (t.len() - a) <= usize::MAX,
        t.len() <= usize::MAX,
        cfg.wf(),
    ensures
        a < t.len() ==> chunks_from(t, kind, cfg, hs, a, ordinal).len() >= 1,
        chunks_from(t, kind, cfg, hs, a, ordinal).len() <= t.len() - a,
        forall|i: int|
            0 <= i < chunks_from(t, kind, cfg, hs, a, ordinal).len() ==> {
                let c = #[trigger] chunks_from(t, kind, cfg, hs, a, ordinal)[i];
                &&& c.text.len() <= cfg.max_bytes
                &&& 1 <= c.text.len()
                &&& c.ordinal == ordinal + i
                &&& a <= c.start < c.end <= t.len()
                &&& c.text == t.subrange(c.start as int, c.end as int)
            },
    decreases t.len() - a,
{
    if a < t.len() {
        lemma_next_start(t, kind, cfg, a);
        lemma_extent(t, kind, cfg, a, a, 0);
        let next = next_start(t, kind, cfg, a);
        lemma_chunks_from(t, kind, cfg, hs, next, ordinal + 1);
        let rest = chunks_from(t, kind, cfg, hs, next, ordinal + 1);
        let all = chunks_from(t, kind, cfg, hs, a, ordinal);
        assert(all == seq![chunk_at(t, kind, cfg, hs, a, ordinal)] + rest);
        assert forall|i: int| 0 <= i < all.len() implies {
            let c = #[trigger] all[i];
            &&& c.text.len() <= cfg.max_bytes
            &&& 1 <= c.text.len()
            &&& c.ordinal == ordinal + i
            &&& a <= c.start < c.end <= t.len()
            &&& c.text == t.subrange(c.start as int, c.end as int)
        } by {
            if i > 0 {
                assert(all[i] == rest[i - 1]);
            } else {
                let c = chunk_at(t, kind, cfg, hs, a, ordinal);
                assert(all[0] == c);
                let e = extent(t, kind, cfg, a, a, 0).0;
                assert(a < e <= t.len());
                assert(c.start == a);
                assert(c.text.len() == c.end - c.start);
            }
        }
    }
}

/// The chunks come in the order of the document: each starts behind the
/// start of the one in front of it.
pub proof fn lemma_chunks_ascend(
    t: Seq<u8>,
    kind: FileKind,
    cfg: ChunkConfig,
    hs: Seq<HeadingView>,
    a: int,
    ordinal: int,
)
    requires
        0 <= a <= t.len(),
        0 <= ordinal,
        ordinal + (t.len() - a) <= usize::MAX,
        t.len() <= usize::MAX,
        cfg.wf(),
    ensures
        forall|i: int, j: int|
            0 <= i < j < chunks_from(t, kind, cfg, hs, a, ordinal).len() ==> (#[trigger] chunks_from(
                t,
                kind,
                cfg,
                hs,
                a,
                ordinal,
            )[i]).start < (#[trigger] chunks_from(t, kind, cfg, hs, a, ordinal)[j]).start,
    decreases t.len() - a,
{
    if a < t.len() {
        lemma_next_start(t, kind, cfg, a);
        let next = next_start(t, kind, cfg, a);
        lemma_chunks_ascend(t, kind, cfg, hs, next, ordinal + 1);
        lemma_chunks_from(t, kind, cfg, hs, next, ordinal + 1);
        lemma_chunks_from(t, kind, cfg, hs, a, ordinal);
        let rest = chunks_from(t, kind, cfg, hs, next, ordinal + 1);
        let all = chunks_from(t, kind, cfg, hs, a, ordinal);
        assert(all == seq![chunk_at(t, kind, cfg, hs, a, ordinal)] + rest);
        assert forall|i: int, j: int| 0 <= i < j < all.len() implies (#[trigger] all[i]).start < (
        #[trigger] all[j]).start by {
            assert(all[j] == rest[j - 1]);
            if i > 0 {
                assert(all[i] == rest[i - 1]);
            } else {
                assert(all[0].start == a);
            }
        }
    }
}

/// Chunking never comes back empty and never goes over the size limit:
/// every document, the empty one too, has at least one chunk, and no
/// chunk is longer than `max_bytes`. The chunks come in the order of
/// their ordinals, which count from 0, each holds the bytes of its range
/// of the document, and each starts behind the start of the one in front
/// of it.
pub proof fn lemma_chunking_bounded(t: Seq<u8>, kind: FileKind, cfg: ChunkConfig)
    requires
        cfg.wf(),
        t.len() <= usize::MAX,
    ensures
        chunking(t, kind, cfg).len() >= 1,
        forall|i: int|
            0 <= i < chunking(t, kind, cfg).len() ==> {
                let c = #[trigger] chunking(t, kind, cfg)[i];
                &&& c.text.len() <= cfg.max_bytes
                &&& c.ordinal == i
                &&& c.start <= c.end <= t.len()
                &&& c.text == t.subrange(c.start as int, c.end as int)
            },
        forall|i: int, j: int|
            0 <= i < j < chunking(t, kind, cfg).len() ==> (#[trigger] chunking(t, kind, cfg)[i]).start
                < (#[trigger] chunking(t, kind, cfg)[j]).start,
{
    if t.len() == 0 {
        assert(empty_chunk().text =~= t.subrange(0, 0));
    } else {
        lemma_chunks_from(t, kind, cfg, headings(t), 0, 0);
        lemma_chunks_ascend(t, kind, cfg, headings(t), 0, 0);
    }
}

/// A document of a single line has a single chunk, cut off at the size
/// limit where the line is longer.
pub proof fn lemma_single_line(t: Seq<u8>, kind: FileKind, cfg: ChunkConfig)
    requires
        cfg.wf(),
        t.len() >= 1,
        line_end(t, 0) == t.len(),
    ensures
        chunking(t, kind, cfg).len() == 1,
        chunking(t, kind, cfg)[0].text == t.take(
            if t.len() > cfg.max_bytes {
                cfg.max_bytes as int
            } else {
                t.len() as int
            },
        ),
{
    let hs = headings(t);
    assert(extent(t, kind, cfg, 0, 0, 0) == extent(t, kind, cfg, 0, t.len() as int, 1));
    assert(next_start(t, kind, cfg, 0) == t.len());
    assert(chunks_from(t, kind, cfg, hs, t.len() as int, 1) =~= Seq::<ChunkView>::empty());
    assert(chunks_from(t, kind, cfg, hs, 0, 0) =~= seq![chunk_at(t, kind, cfg, hs, 0, 0)]);
}

/// Finds where the chunk that starts at `a` ends, and where its lines
/// start.
fn scan_extent(text: &[u8], kind: FileKind, cfg: &ChunkConfig, a: usize, words: &Vec<Vec<u8>>) -> (r:
    (usize, Vec<usize>))
    requires
        a < text.len(),
        cfg.wf(),
        views(words@) == keywords(),
    ensures
        (r.0 as int, r.1.len() as int) == extent(text@, kind, *cfg, a as int, a as int, 0),
        a < r.0 <= text.len(),
        forall|k: int| 0 <= k < r.1.len() ==> (#[trigger] r.1[k]) == nth_line(text@, a as int, k),
        forall|k: int| 1 <= k < r.1.len() ==> a < (#[trigger] r.1[k]) <= r.0,
{
    let mut e: usize = a;
    let mut starts: Vec<usize> = Vec::new();
    let mut scanning = true;
    while scanning
        invariant
            a <= e <= text.len(),
            a < text.len(),
            cfg.wf(),
            views(words@) == keywords(),
            starts.len() <= e - a,
            starts.len() == 0 <==> e == a,
            e == nth_line(text@, a as int, starts.len() as int),
            forall|k: int|
                0 <= k < starts.len() ==> (#[trigger] starts[k]) == nth_line(text@, a as int, k),
            forall|k: int| 0 <= k < starts.len() ==> a <= #[trigger] starts[k] < e,
            forall|k: int| 1 <= k < starts.len() ==> a < #[trigger] starts[k],
            extent(text@, kind, *cfg, a as int, e as int, starts.len() as int) == extent(
                text@,
                kind,
                *cfg,
                a as int,
                a as int,
                0,
            ),
            !scanning ==> e >= text.len() || stops_at(
                text@,
                kind,
                *cfg,
                a as int,
                e as int,
                starts.len() as int,
            ),
        decreases text.len() - e + if scanning { 1int } else { 0int },
    {
        if e >= text.len() {
            scanning = false;
        } else {
            let le = find_line_end(text, e);
            let lines = starts.len();
            if lines >= 1 && (block_opens(text, kind, e, words) || lines >= cfg.window_lines || le
                - a > cfg.max_bytes) {
                scanning = false;
            } else {
                starts.push(e);
                e = le;
            }
        }
    }
    (e, starts)
}

/// Cuts a document into chunks.
pub fn chunk(text: &[u8], kind: FileKind, cfg: &ChunkConfig) -> (out: Vec<Chunk>)
    requires
        cfg.wf(),
    ensures
        views(out@) == chunking(text@, kind, *cfg),
        out.len() >= 1,
        forall|i: int| 0 <= i < out.len() ==> (#[trigger] out[i]).text.len() <= cfg.max_bytes,
{
    let mut out: Vec<Chunk> = Vec::new();
    if text.len() == 0 {
        out.push(
            Chunk { ordinal: 0, start: 0, end: 0, text: Vec::new(), structural_path: Vec::new() },
        );
        assert(views(out@) =~= seq![empty_chunk()]);
        return out;
    }
    let ghost t = text@;
    let ghost hs = headings(t);
    let words = definition_keywords();
    let meta = if kind == FileKind::Markdown {
        parse_markdown(text)
    } else {
        MarkdownMeta { headings: Vec::new() }
    };
    let mut outline = Outline::new(meta);
    let mut a: usize = 0;
    assert(views(out@) =~= Seq::<ChunkView>::empty());
    while a < text.len()
        invariant
            a <= text.len(),
            t == text@,
            hs == headings(t),
            cfg.wf(),
            views(words@) == keywords(),
            out.len() <= a,
            outline.wf(),
            outline.reached() <= a,
            kind == FileKind::Markdown ==> outline.all() == hs,
            views(out@) + chunks_from(t, kind, *cfg, hs, a as int, out.len() as int)
                == chunks_from(t, kind, *cfg, hs, 0, 0),
        decreases text.len() - a,
    {
        let ghost before = views(out@);
        let (e, starts) = scan_extent(text, kind, cfg, a, &words);
        let cut = if e - a > cfg.max_bytes {
            a + cfg.max_bytes
        } else {
            e
        };
        let path = if kind == FileKind::Markdown {
            outline.advance(a);
            outline.path()
        } else {
            Vec::new()
        };
        let c = Chunk {
            ordinal: out.len(),
            start: a,
            end: cut,
            text: copy_range(text, a, cut),
            structural_path: path,
        };
        assert(c@ == chunk_at(t, kind, *cfg, hs, a as int, out.len() as int));
        out.push(c);
        let lines = starts.len();
        let next = if e < text.len() && !block_opens(text, kind, e, &words) && lines
            > cfg.overlap_lines && cfg.overlap_lines > 0 {
            starts[lines - cfg.overlap_lines]
        } else {
            e
        };
        proof {
            lemma_next_start(t, kind, *cfg, a as int);
            assert(next == next_start(t, kind, *cfg, a as int));
            assert(views(out@) =~= before.push(chunk_at(t, kind, *cfg, hs, a as int, out.len() - 1)));
            assert(before + chunks_from(t, kind, *cfg, hs, a as int, out.len() - 1) =~= views(out@)
                + chunks_from(t, kind, *cfg, hs, next as int, out.len() as int));
        }
        a = next;
    }
    proof {
        assert(views(out@) + Seq::<ChunkView>::empty() =~= views(out@));
        lemma_chunking_bounded(t, kind, *cfg);
        assert forall|i: int| 0 <= i < out.len() implies (#[trigger] out[i]).text.len()
            <= cfg.max_bytes by {
            assert(views(out@)[i] == out[i]@);
        }
    }
    out
}

} // verus!
