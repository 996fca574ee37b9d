//! Markdown structure: the headings of a document and the breadcrumb of
//! nested headings that a place in the document stands under.

use vstd::prelude::*;
use crate::engine::text::{copy_range, find_line_end, lemma_line_end, line_end, views};

verus! {

/// The number of hash signs that stand in `t` from byte `p` on, counted up
/// to seven.
pub open spec fn hashes(t: Seq<u8>, p: int, n: int) -> int
    decreases 7 - n,
{
    if n < 7 && 0 <= p + n < t.len() && t[p + n] == 0x23 {
        hashes(t, p, n + 1)
    } else {
        n
    }
}

/// The level of the heading that the line at `p` is: the number of its
/// leading hash signs where there are one to six of them and a space
/// follows, and 0 where the line is no heading.
pub open spec fn heading_level(t: Seq<u8>, p: int) -> int {
    let n = hashes(t, p, 0);
    if 1 <= n <= 6 && p + n < t.len() && t[p + n] == 0x20 {
        n
    } else {
        0
    }
}

/// Where the content of the line at `p` ends: in front of the line feed,
/// and of a carriage return in front of that.
pub open spec fn content_end(t: Seq<u8>, p: int) -> int {
    let e = line_end(t, p);
    if e > p && t[e - 1] == 0x0a {
        if e - 1 > p && t[e - 2] == 0x0d {
            e - 2
        } else {
            e - 1
        }
    } else {
        e
    }
}

/// The title of the heading of level `level` at `p`: what follows the hash
/// signs and the space, up to the end of the line's content.
pub open spec fn heading_title(t: Seq<u8>, p: int, level: int) -> Seq<u8> {
    if p + level + 1 <= content_end(t, p) {
        t.subrange(p + level + 1, content_end(t, p))
    } else {
        Seq::empty()
    }
}

/// A heading of a markdown document: its level from 1 to 6, its title and
/// the byte at which its line starts.
#[derive(Debug)]
pub struct Heading {
    pub level: u8,
    pub title: Vec<u8>,
    pub offset: usize,
}

/// A `Heading` as contracts see it.
pub struct HeadingView {
    pub level: u8,
    pub title: Seq<u8>,
    pub offset: usize,
}

impl View for Heading {
    type V = HeadingView;

    open spec fn view(&self) -> HeadingView {
        HeadingView { level: self.level, title: self.title@, offset: self.offset }
    }
}

/// What is known of a markdown document's structure.
#[derive(Debug)]
pub struct MarkdownMeta {
    pub headings: Vec<Heading>,
}

impl View for MarkdownMeta {
    type V = Seq<HeadingView>;

    open spec fn view(&self) -> Seq<HeadingView> {
        views(self.headings@)
    }
}

/// The heading that the line at `p` is, if it is one.
pub open spec fn heading_at(t: Seq<u8>, p: int) -> Seq<HeadingView> {
    let level = heading_level(t, p);
    if level > 0 {
        seq![
            HeadingView {
                level: level as u8,
                title: heading_title(t, p, level),
                offset: p as usize,
            },
        ]
    } else {
        Seq::empty()
    }
}

/// The headings of the lines from the line start `p` on.
pub open spec fn headings_from(t: Seq<u8>, p: int) -> Seq<HeadingView>
    decreases t.len() - p,
{
    if p < 0 || p >= t.len() {
        Seq::empty()
    } else {
        proof {
            lemma_line_end(t, p);
        }
        heading_at(t, p) + headings_from(t, line_end(t, p))
    }
}

/// The headings of a document, in order.
pub open spec fn headings(t: Seq<u8>) -> Seq<HeadingView> {
    headings_from(t, 0)
}

/// Decides the level of the heading that the line at `p` is, 0 for none.
pub fn level_at(text: &[u8], p: usize) -> (level: u8)
    requires
        p < text.len(),
    ensures
        level == heading_level(text@, p as int),
        level <= 6,
{
    let mut n: usize = 0;
    while n < 7 && n < text.len() - p && text[p + n] == 0x23
        invariant
            n <= 7,
            p < text.len(),
            hashes(text@, p as int, n as int) == hashes(text@, p as int, 0),
        decreases 7 - n,
    {
        n += 1;
    }
    if 1 <= n && n <= 6 && n < text.len() - p && text[p + n] == 0x20 {
        n as u8
    } else {
        0
    }
}

/// Finds where the content of the line at `p` ends.
pub fn find_content_end(text: &[u8], p: usize) -> (e: usize)
    requires
        p < text.len(),
    ensures
        e == content_end(text@, p as int),
        p <= e <= text.len(),
{
    let e = find_line_end(text, p);
    if text[e - 1] == 0x0a {
        if e - 1 > p && text[e - 2] == 0x0d {
            e - 2
        } else {
            e - 1
        }
    } else {
        e
    }
}

/// Reads the headings of a markdown document.
pub fn parse_markdown(text: &[u8]) -> (meta: MarkdownMeta)
    ensures
        meta@ == headings(text@),
{
    let mut out: Vec<Heading> = Vec::new();
    let mut p: usize = 0;
    assert(views(out@) =~= Seq::<HeadingView>::empty());
    while p < text.len()
        invariant
            p <= text.len(),
            views(out@) + headings_from(text@, p as int) == headings(text@),
        decreases text.len() - p,
    {
        let ghost before = views(out@);
        let level = level_at(text, p);
        let next = find_line_end(text, p);
        if level > 0 {
            let stop = find_content_end(text, p);
            let from = p + level as usize + 1;
            let title = if from <= stop {
                copy_range(text, from, stop)
            } else {
                Vec::new()
            };
            assert(title@ =~= heading_title(text@, p as int, level as int));
            let h = Heading { level, title, offset: p };
            out.push(h);
            assert(views(out@) =~= before + heading_at(text@, p as int));
        } else {
            assert(views(out@) =~= before + heading_at(text@, p as int));
        }
        assert(before + heading_at(text@, p as int) + headings_from(text@, next as int) =~= before
            + headings_from(text@, p as int));
        p = next;
    }
    assert(views(out@) + Seq::<HeadingView>::empty() =~= views(out@));
    MarkdownMeta { headings: out }
}

/// The open headings that stay open under a heading of level `level`:
/// those from the last one back whose level is not below it are closed.
pub open spec fn unwind(open: Seq<HeadingView>, level: u8) -> Seq<HeadingView>
    decreases open.len(),
{
    if open.len() > 0 && open.last().level >= level {
        unwind(open.drop_last(), level)
    } else {
        open
    }
}

/// The headings that are open behind the first `n` headings: each heading
/// closes the open ones that are not above it and is then open itself.
pub open spec fn open_headings(hs: Seq<HeadingView>, n: int) -> Seq<HeadingView>
    decreases n,
{
    if n <= 0 {
        Seq::empty()
    } else {
        unwind(open_headings(hs, n - 1), hs[n - 1].level).push(hs[n - 1])
    }
}

/// The first heading from `i` on that starts behind byte `a`.
pub open spec fn lead(hs: Seq<HeadingView>, a: int, i: int) -> int
    decreases hs.len() - i,
{
    if 0 <= i < hs.len() && hs[i].offset <= a {
        lead(hs, a, i + 1)
    } else {
        i
    }
}

/// The titles of the first `n` open headings, joined by " > ".
pub open spec fn joined(open: Seq<HeadingView>, n: int) -> Seq<u8>
    decreases n,
{
    if n <= 0 {
        Seq::empty()
    } else if n == 1 {
        open[0].title
    } else {
        joined(open, n - 1) + seq![0x20u8, 0x3e, 0x20] + open[n - 1].title
    }
}

/// The breadcrumb of byte `a`: the titles of the headings that are open
/// behind the headings that start at or in front of `a`, the outermost
/// first.
pub open spec fn breadcrumb(hs: Seq<HeadingView>, a: int) -> Seq<u8> {
    let open = open_headings(hs, lead(hs, a, 0));
    joined(open, open.len() as int)
}

/// Where the headings in front of `i` start at or in front of `a`, the
/// first heading behind `a` is the first such from `i` on.
pub proof fn lemma_lead_from(hs: Seq<HeadingView>, a: int, i: int, k: int)
    requires
        0 <= k <= i <= hs.len(),
        forall|m: int| 0 <= m < i ==> (#[trigger] hs[m]).offset <= a,
    ensures
        lead(hs, a, k) == lead(hs, a, i),
    decreases i - k,
{
    if k < i {
        lemma_lead_from(hs, a, i, k + 1);
    }
}

/// Closes the open headings that do not stay open under a heading of level
/// `level`.
pub fn close_headings(open: &mut Vec<Heading>, level: u8)
    ensures
        views(final(open)@) == unwind(views(old(open)@), level),
{
    let ghost start = views(open@);
    while open.len() > 0 && open[open.len() - 1].level >= level
        invariant
            unwind(views(open@), level) == unwind(start, level),
        decreases open.len(),
    {
        let ghost before = views(open@);
        assert(before.last() == open[open.len() - 1]@);
        open.pop();
        assert(views(open@) =~= before.drop_last());
    }
    proof {
        let v = views(open@);
        if v.len() > 0 {
            assert(v.last() == open[open.len() - 1]@);
        }
        assert(unwind(v, level) == v);
    }
}

/// A walk through the headings of a document that keeps the open headings
/// of the place it has reached.
pub struct Outline {
    headings: Vec<Heading>,
    next: usize,
    at: usize,
    open: Vec<Heading>,
}

impl Outline {
    /// The headings that the walk goes through.
    pub closed spec fn all(&self) -> Seq<HeadingView> {
        views(self.headings@)
    }

    /// The byte that the walk has reached.
    pub closed spec fn reached(&self) -> usize {
        self.at
    }

    /// The open headings of the place that the walk has reached.
    pub closed spec fn open_here(&self) -> Seq<HeadingView> {
        views(self.open@)
    }

    /// The walk is sound where it holds the open headings of the place
    /// that it has reached.
    pub closed spec fn wf(&self) -> bool {
        &&& self.next <= self.headings.len()
        &&& self.next == lead(self.all(), self.at as int, 0)
        &&& forall|m: int| 0 <= m < self.next ==> (#[trigger] self.all()[m]).offset <= self.at
        &&& views(self.open@) == open_headings(self.all(), self.next as int)
    }

    /// A walk at the start of a document with the headings `meta`.
    pub fn new(meta: MarkdownMeta) -> (r: Outline)
        ensures
            r.wf(),
            r.all() == meta@,
            r.reached() == 0,
            r.open_here() == open_headings(meta@, lead(meta@, 0, 0)),
    {
        let mut r = Outline { headings: meta.headings, next: 0, at: 0, open: Vec::new() };
        assert(views(r.open@) =~= open_headings(r.all(), 0));
        r.step();
        r
    }

    /// Takes in the headings that start at or in front of the place
    /// reached.
    fn step(&mut self)
        requires
            old(self).next <= old(self).headings.len(),
            forall|m: int|
                0 <= m < old(self).next ==> (#[trigger] old(self).all()[m]).offset <= old(self).at,
            views(old(self).open@) == open_headings(old(self).all(), old(self).next as int),
        ensures
            final(self).wf(),
            final(self).all() == old(self).all(),
            final(self).reached() == old(self).reached(),
    {
        let ghost hs = self.all();
        proof {
            lemma_lead_from(hs, self.at as int, self.next as int, 0);
        }
        while self.next < self.headings.len() && self.headings[self.next].offset <= self.at
            invariant
                self.next <= self.headings.len(),
                self.all() == hs,
                self.at == old(self).at,
                lead(hs, self.at as int, 0) == lead(hs, self.at as int, self.next as int),
                forall|m: int| 0 <= m < self.next ==> (#[trigger] hs[m]).offset <= self.at,
                views(self.open@) == open_headings(hs, self.next as int),
            decreases self.headings.len() - self.next,
        {
            assert(hs[self.next as int] == self.headings[self.next as int]@);
            let level = self.headings[self.next].level;
            close_headings(&mut self.open, level);
            let ghost kept = views(self.open@);
            let title = self.headings[self.next].title.clone();
            assert(title@ =~= self.headings[self.next as int].title@);
            let h = Heading { level, title, offset: self.headings[self.next].offset };
            self.open.push(h);
            assert(views(self.open@) =~= kept.push(hs[self.next as int]));
            self.next = self.next + 1;
        }
    }

    /// Moves the walk on to byte `a`.
    pub fn advance(&mut self, a: usize)
        requires
            old(self).wf(),
            a >= old(self).reached(),
        ensures
            final(self).wf(),
            final(self).all() == old(self).all(),
            final(self).reached() == a,
            final(self).open_here() == open_headings(
                old(self).all(),
                lead(old(self).all(), a as int, 0),
            ),
    {
        self.at = a;
        self.step();
    }

    /// The breadcrumb of the place reached.
    pub fn path(&self) -> (p: Vec<u8>)
        requires
            self.wf(),
        ensures
            p@ == breadcrumb(self.all(), self.reached() as int),
    {
        let mut p: Vec<u8> = Vec::new();
        let mut n: usize = 0;
        let ghost open = views(self.open@);
        while n < self.open.len()
            invariant
                n <= self.open.len(),
                open == views(self.open@),
                p@ == joined(open, n as int),
            decreases self.open.len() - n,
        {
            assert(open[n as int] == self.open[n as int]@);
            let ghost before = p@;
            if n > 0 {
                p.push(0x20);
                p.push(0x3e);
                p.push(0x20);
                assert(p@ =~= before + seq![0x20u8, 0x3e, 0x20]);
            }
            let ghost mid = p@;
            let title = &self.open[n].title;
            let mut k: usize = 0;
            while k < title.len()
                invariant
                    k <= title.len(),
                    p@ == mid + title@.take(k as int),
                decreases title.len() - k,
            {
                p.push(title[k]);
                assert(title@.take(k + 1) =~= title@.take(k as int).push(title@[k as int]));
                assert(p@ =~= mid + title@.take(k + 1));
                k += 1;
            }
            assert(title@.take(title.len() as int) =~= title@);
            assert(p@ =~= joined(open, n + 1)) by {
                if n == 0 {
                    assert(mid =~= Seq::<u8>::empty());
                    assert(mid + title@ =~= title@);
                }
            }
            n += 1;
        }
        p
    }
}

} // verus!
