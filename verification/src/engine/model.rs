//! Values shared by the engine's components: file kinds, search filters and
//! the identity that every ranked result carries.

use vstd::prelude::*;
use crate::engine::text::{
    bytes_before, bytes_eq, bytes_lt, lemma_bytes_before_total, lemma_bytes_before_trans, views,
};

verus! {

/// What kind of file a document is.
#[derive(Clone, Copy, PartialEq, Eq, Structural, Debug)]
pub enum FileKind {
    Code,
    Markdown,
    Config,
}

/// The kinds of failure that the engine and its callers tell apart.
#[derive(Clone, Copy, PartialEq, Eq, Structural, Debug)]
pub enum ErrorKind {
    /// A path is missing or may not be read.
    Io,
    /// A query text is malformed.
    Parse,
    /// The embedding model cannot be loaded or run.
    EmbeddingUnavailable,
    /// What was written out of the index does not hang together.
    IndexCorruption,
    /// File system events were lost.
    WatchGapDetected,
    /// Two operations raced for one repository.
    ConcurrentWriteConflict,
}

/// What is done about a failure.
#[derive(Clone, Copy, PartialEq, Eq, Structural, Debug)]
pub enum Recovery {
    /// The operation is given up and the failure reported.
    Abort,
    /// Search goes on from the lexical index alone, with a warning.
    DegradeToLexical,
    /// The repository is indexed anew from its files.
    FullRebuild,
    /// The repository is walked again, and nothing is reported.
    FullRescan,
    /// The operation is tried again after a pause, and reported only
    /// where that keeps failing.
    Retry,
}

impl ErrorKind {
    /// What is done about a failure of this kind.
    pub open spec fn policy(self) -> Recovery {
        match self {
            ErrorKind::Io => Recovery::Abort,
            ErrorKind::Parse => Recovery::Abort,
            ErrorKind::EmbeddingUnavailable => Recovery::DegradeToLexical,
            ErrorKind::IndexCorruption => Recovery::FullRebuild,
            ErrorKind::WatchGapDetected => Recovery::FullRescan,
            ErrorKind::ConcurrentWriteConflict => Recovery::Retry,
        }
    }

    /// Decides what is done about a failure of this kind.
    pub fn recovery(self) -> (r: Recovery)
        ensures
            r == self.policy(),
    {
        match self {
            ErrorKind::Io => Recovery::Abort,
            ErrorKind::Parse => Recovery::Abort,
            ErrorKind::EmbeddingUnavailable => Recovery::DegradeToLexical,
            ErrorKind::IndexCorruption => Recovery::FullRebuild,
            ErrorKind::WatchGapDetected => Recovery::FullRescan,
            ErrorKind::ConcurrentWriteConflict => Recovery::Retry,
        }
    }

    /// Whether a failure of this kind fails the caller's operation: a lost
    /// event does not, nor does a missing embedding model.
    pub fn fails_caller(self) -> (r: bool)
        ensures
            r == (self.policy() == Recovery::Abort || self.policy() == Recovery::FullRebuild
                || self.policy() == Recovery::Retry),
    {
        match self {
            ErrorKind::EmbeddingUnavailable => false,
            ErrorKind::WatchGapDetected => false,
            _ => true,
        }
    }
}

/// Where the extension of a path begins, looking back from byte `n`:
/// behind the last dot of the last segment, or at the end of the path
/// where that segment has no dot.
pub open spec fn extension_start(path: Seq<u8>, n: int) -> int
    decreases n,
{
    if n <= 0 {
        path.len() as int
    } else if path[n - 1] == 0x2e {
        n
    } else if path[n - 1] == 0x2f {
        path.len() as int
    } else {
        extension_start(path, n - 1)
    }
}

/// The extension of a path: what follows the last dot of its last
/// segment.
pub open spec fn extension(path: Seq<u8>) -> Seq<u8> {
    path.subrange(extension_start(path, path.len() as int), path.len() as int)
}

/// The extensions of markdown files: md, markdown, mdx.
pub open spec fn markdown_extensions() -> Seq<Seq<u8>> {
    seq![
        seq![0x6du8, 0x64],
        seq![0x6du8, 0x61, 0x72, 0x6b, 0x64, 0x6f, 0x77, 0x6e],
        seq![0x6du8, 0x64, 0x78],
    ]
}

/// The extensions of configuration files: toml, yaml, yml, json, ini,
/// cfg, conf.
pub open spec fn config_extensions() -> Seq<Seq<u8>> {
    seq![
        seq![0x74u8, 0x6f, 0x6d, 0x6c],
        seq![0x79u8, 0x61, 0x6d, 0x6c],
        seq![0x79u8, 0x6d, 0x6c],
        seq![0x6au8, 0x73, 0x6f, 0x6e],
        seq![0x69u8, 0x6e, 0x69],
        seq![0x63u8, 0x66, 0x67],
        seq![0x63u8, 0x6f, 0x6e, 0x66],
    ]
}

/// The kind of the file at a path, by its extension: markdown and
/// configuration files by theirs, and code for every other file.
pub open spec fn kind_of(path: Seq<u8>) -> FileKind {
    if markdown_extensions().contains(extension(path)) {
        FileKind::Markdown
    } else if config_extensions().contains(extension(path)) {
        FileKind::Config
    } else {
        FileKind::Code
    }
}

/// The extension begins inside the path.
pub proof fn lemma_extension_start(path: Seq<u8>, n: int)
    requires
        0 <= n <= path.len(),
    ensures
        0 <= extension_start(path, n) <= path.len(),
    decreases n,
{
    if n > 0 && path[n - 1] != 0x2e && path[n - 1] != 0x2f {
        lemma_extension_start(path, n - 1);
    }
}

/// Whether `word` is one of `list`.
pub fn is_among(list: &Vec<Vec<u8>>, word: &[u8]) -> (r: bool)
    ensures
        r == views(list@).contains(word@),
{
    let mut i: usize = 0;
    while i < list.len()
        invariant
            i <= list.len(),
            forall|k: int| 0 <= k < i ==> (#[trigger] views(list@)[k]) != word@,
        decreases list.len() - i,
    {
        assert(views(list@)[i as int] == list[i as int]@);
        if bytes_eq(list[i].as_slice(), word) {
            return true;
        }
        i += 1;
    }
    false
}

/// Decides the kind of the file at a path.
pub fn file_kind(path: &[u8]) -> (kind: FileKind)
    ensures
        kind == kind_of(path@),
{
    let mut n: usize = path.len();
    while n > 0 && path[n - 1] != 0x2e && path[n - 1] != 0x2f
        invariant
            n <= path.len(),
            extension_start(path@, n as int) == extension_start(path@, path.len() as int),
        decreases n,
    {
        n -= 1;
    }
    let start = if n > 0 && path[n - 1] == 0x2e {
        n
    } else {
        path.len()
    };
    let ext = crate::engine::text::copy_range(path, start, path.len());
    let mut markdown: Vec<Vec<u8>> = Vec::new();
    markdown.push(vec![0x6du8, 0x64]);
    markdown.push(vec![0x6du8, 0x61, 0x72, 0x6b, 0x64, 0x6f, 0x77, 0x6e]);
    markdown.push(vec![0x6du8, 0x64, 0x78]);
    assert(views(markdown@) =~= markdown_extensions()) by {
        assert forall|i: int| 0 <= i < 3 implies views(markdown@)[i] =~= markdown_extensions()[i] by {}
    }
    let mut config: Vec<Vec<u8>> = Vec::new();
    config.push(vec![0x74u8, 0x6f, 0x6d, 0x6c]);
    config.push(vec![0x79u8, 0x61, 0x6d, 0x6c]);
    config.push(vec![0x79u8, 0x6d, 0x6c]);
    config.push(vec![0x6au8, 0x73, 0x6f, 0x6e]);
    config.push(vec![0x69u8, 0x6e, 0x69]);
    config.push(vec![0x63u8, 0x66, 0x67]);
    config.push(vec![0x63u8, 0x6f, 0x6e, 0x66]);
    assert(views(config@) =~= config_extensions()) by {
        assert forall|i: int| 0 <= i < 7 implies views(config@)[i] =~= config_extensions()[i] by {}
    }
    if is_among(&markdown, ext.as_slice()) {
        FileKind::Markdown
    } else if is_among(&config, ext.as_slice()) {
        FileKind::Config
    } else {
        FileKind::Code
    }
}

/// The filters of a search: each one, where set, must agree with a result.
#[derive(Clone, Copy, Debug)]
pub struct Filters {
    pub repo_id: Option<u64>,
    pub kind: Option<FileKind>,
}

impl Filters {
    /// Whether a chunk of repository `repo_id` and kind `kind` passes.
    pub open spec fn admits(&self, repo_id: u64, kind: FileKind) -> bool {
        &&& (self.repo_id matches Some(r) ==> r == repo_id)
        &&& (self.kind matches Some(k) ==> k == kind)
    }

    /// Filters that let every chunk pass.
    pub fn none() -> (f: Filters)
        ensures
            f.repo_id is None,
            f.kind is None,
    {
        Filters { repo_id: None, kind: None }
    }

    /// Decides whether a chunk of repository `repo_id` and kind `kind` passes.
    pub fn passes(&self, repo_id: u64, kind: FileKind) -> (r: bool)
        ensures
            r == self.admits(repo_id, kind),
    {
        let repo_ok = match self.repo_id {
            Some(r) => r == repo_id,
            None => true,
        };
        let kind_ok = match self.kind {
            Some(k) => k == kind,
            None => true,
        };
        repo_ok && kind_ok
    }
}

/// The identity of a chunk as results carry it: its id, its repository and
/// kind, the byte length of its text and the path of its document.
#[derive(Debug)]
pub struct Meta {
    pub chunk_id: u64,
    pub repo_id: u64,
    pub kind: FileKind,
    pub length: usize,
    pub path: Vec<u8>,
}

/// A `Meta` as contracts see it.
pub struct MetaView {
    pub chunk_id: u64,
    pub repo_id: u64,
    pub kind: FileKind,
    pub length: usize,
    pub path: Seq<u8>,
}

impl View for Meta {
    type V = MetaView;

    open spec fn view(&self) -> MetaView {
        MetaView {
            chunk_id: self.chunk_id,
            repo_id: self.repo_id,
            kind: self.kind,
            length: self.length,
            path: self.path@,
        }
    }
}

/// The tie-break between two results of equal score: the shorter chunk
/// first, then the lexicographically smaller document path, then the
/// smaller chunk id.
pub open spec fn tie_before(a: MetaView, b: MetaView) -> bool {
    a.length < b.length || (a.length == b.length && (bytes_before(a.path, b.path) || (a.path
        == b.path && a.chunk_id < b.chunk_id)))
}

/// Whether the tie-break tells two results apart neither way.
pub open spec fn tie_level(a: MetaView, b: MetaView) -> bool {
    a.length == b.length && a.path == b.path && a.chunk_id == b.chunk_id
}

/// The tie-break is a strict total order up to `tie_level`.
pub proof fn lemma_tie_order(a: MetaView, b: MetaView, c: MetaView)
    ensures
        !(tie_before(a, b) && tie_before(b, a)),
        tie_before(a, b) || tie_before(b, a) || tie_level(a, b),
        tie_level(a, b) ==> !tie_before(a, b),
        tie_before(a, b) && tie_before(b, c) ==> tie_before(a, c),
        tie_before(a, b) && tie_level(b, c) ==> tie_before(a, c),
        tie_level(a, b) && tie_before(b, c) ==> tie_before(a, c),
        tie_level(a, b) && tie_level(b, c) ==> tie_level(a, c),
{
    lemma_bytes_before_total(a.path, b.path);
    lemma_bytes_before_total(b.path, c.path);
    lemma_bytes_before_total(a.path, c.path);
    if bytes_before(a.path, b.path) && bytes_before(b.path, c.path) {
        lemma_bytes_before_trans(a.path, b.path, c.path);
    }
}

impl Meta {
    /// Decides the tie-break between two results.
    pub fn ties_before(&self, other: &Meta) -> (r: bool)
        ensures
            r == tie_before(self@, other@),
    {
        if self.length != other.length {
            return self.length < other.length;
        }
        if bytes_lt(self.path.as_slice(), other.path.as_slice()) {
            return true;
        }
        proof {
            lemma_bytes_before_total(self.path@, other.path@);
        }
        bytes_eq(self.path.as_slice(), other.path.as_slice()) && self.chunk_id < other.chunk_id
    }

    /// Whether two identities are the same.
    pub fn same(&self, other: &Meta) -> (r: bool)
        ensures
            r == (self@ == other@),
    {
        self.chunk_id == other.chunk_id && self.repo_id == other.repo_id && self.kind == other.kind
            && self.length == other.length && bytes_eq(
            self.path.as_slice(),
            other.path.as_slice(),
        )
    }

    /// A copy of this identity.
    pub fn duplicate(&self) -> (r: Meta)
        ensures
            r@ == self@,
    {
        let path = self.path.clone();
        assert(path@ =~= self.path@);
        Meta {
            chunk_id: self.chunk_id,
            repo_id: self.repo_id,
            kind: self.kind,
            length: self.length,
            path,
        }
    }
}

/// A part of the indexed corpus: one repository, or one document of one.
#[derive(Debug)]
pub enum Scope {
    Repository(u64),
    Document(u64, Vec<u8>),
}

/// A `Scope` as contracts see it.
pub enum ScopeView {
    Repository(u64),
    Document(u64, Seq<u8>),
}

impl View for Scope {
    type V = ScopeView;

    open spec fn view(&self) -> ScopeView {
        match self {
            Scope::Repository(r) => ScopeView::Repository(*r),
            Scope::Document(r, p) => ScopeView::Document(*r, p@),
        }
    }
}

impl ScopeView {
    /// Whether the document `path` of repository `repo_id` lies in the scope.
    pub open spec fn covers(self, repo_id: u64, path: Seq<u8>) -> bool {
        match self {
            ScopeView::Repository(r) => r == repo_id,
            ScopeView::Document(r, p) => r == repo_id && p == path,
        }
    }
}

impl Scope {
    /// Decides whether the document `path` of repository `repo_id` lies in
    /// the scope.
    pub fn holds(&self, repo_id: u64, path: &[u8]) -> (r: bool)
        ensures
            r == self@.covers(repo_id, path@),
    {
        match self {
            Scope::Repository(r) => *r == repo_id,
            Scope::Document(r, p) => *r == repo_id && bytes_eq(p.as_slice(), path),
        }
    }
}

/// A record that belongs to one document of one repository.
pub trait Located: View + Sized {
    /// The repository that a record with view `a` belongs to.
    spec fn repo_of(a: Self::V) -> u64;

    /// The path of the document that a record with view `a` belongs to.
    spec fn path_of(a: Self::V) -> Seq<u8>;

    /// The repository that the record belongs to.
    fn repo(&self) -> (r: u64)
        ensures
            r == Self::repo_of(self@),
    ;

    /// The path of the document that the record belongs to.
    fn path(&self) -> (p: &Vec<u8>)
        ensures
            p@ == Self::path_of(self@),
    ;
}

/// The records that lie outside a scope.
pub open spec fn outside<T: Located>(scope: ScopeView) -> spec_fn(T::V) -> bool {
    |a: T::V| !scope.covers(T::repo_of(a), T::path_of(a))
}

/// Removes from `v` every record that lies in `scope`; the others keep
/// their order.
pub fn drop_scope<T: Located>(v: Vec<T>, scope: &Scope) -> (out: Vec<T>)
    ensures
        views(out@) == views(v@).filter(outside::<T>(scope@)),
{
    let mut out: Vec<T> = Vec::new();
    let ghost all = views(v@);
    assert(all.take(0).filter(outside::<T>(scope@)) =~= Seq::<T::V>::empty());
    assert(views(out@) =~= Seq::<T::V>::empty());
    for e in it: v
        invariant
            it.seq() == v@,
            all == views(v@),
            views(out@) == all.take(it.index() as int).filter(outside::<T>(scope@)),
    {
        let ghost i = it.index() as int;
        let ghost before = views(out@);
        proof {
            assert(all.take(i + 1) =~= all.take(i).push(all[i]));
            all.take(i).lemma_filter_push(all[i], outside::<T>(scope@));
            assert(all[i] == e@);
        }
        if !scope.holds(e.repo(), e.path().as_slice()) {
            out.push(e);
            assert(views(out@) =~= before.push(all[i]));
        }
    }
    assert(all.take(all.len() as int) =~= all);
    out
}

/// One chunk of a document, as the chunker yields it: its place in the
/// document's order, the byte range that it was taken from, its text and
/// its heading breadcrumb.
#[derive(Debug)]
pub struct Chunk {
    pub ordinal: usize,
    pub start: usize,
    pub end: usize,
    pub text: Vec<u8>,
    pub structural_path: Vec<u8>,
}

/// A `Chunk` as contracts see it.
pub struct ChunkView {
    pub ordinal: usize,
    pub start: usize,
    pub end: usize,
    pub text: Seq<u8>,
    pub structural_path: Seq<u8>,
}

impl View for Chunk {
    type V = ChunkView;

    open spec fn view(&self) -> ChunkView {
        ChunkView {
            ordinal: self.ordinal,
            start: self.start,
            end: self.end,
            text: self.text@,
            structural_path: self.structural_path@,
        }
    }
}

/// What holds of every element of a sequence holds of every element that
/// a filter keeps, and so does the filter's own condition.
pub proof fn lemma_filter_all<A>(s: Seq<A>, keep: spec_fn(A) -> bool, good: spec_fn(A) -> bool)
    requires
        forall|i: int| 0 <= i < s.len() ==> good(#[trigger] s[i]),
    ensures
        forall|i: int|
            0 <= i < s.filter(keep).len() ==> good(#[trigger] s.filter(keep)[i]) && keep(
                s.filter(keep)[i],
            ),
{
    broadcast use vstd::seq_lib::group_filter_ensures;

    assert forall|i: int| 0 <= i < s.filter(keep).len() implies good(#[trigger] s.filter(keep)[i])
        && keep(s.filter(keep)[i]) by {
        let x = s.filter(keep)[i];
        assert(s.filter(keep).contains(x));
        s.lemma_filter_contains_rev(keep, x);
        let j = choose|j: int| 0 <= j < s.len() && s[j] == x;
        assert(good(s[j]));
    }
}

/// What holds of every two elements of a sequence, the earlier and the
/// later, holds of every two that a filter keeps.
pub proof fn lemma_filter_pairs<A>(
    s: Seq<A>,
    keep: spec_fn(A) -> bool,
    rel: spec_fn(A, A) -> bool,
)
    requires
        forall|i: int, j: int| 0 <= i < j < s.len() ==> #[trigger] rel(s[i], s[j]),
    ensures
        forall|a: int, b: int|
            #![trigger s.filter(keep)[a], s.filter(keep)[b]]
            0 <= a < b < s.filter(keep).len() ==> rel(s.filter(keep)[a], s.filter(keep)[b]),
    decreases s.len(),
{
    reveal(Seq::filter);
    if s.len() > 0 {
        let rest = s.drop_last();
        assert forall|i: int, j: int| 0 <= i < j < rest.len() implies #[trigger] rel(
            rest[i],
            rest[j],
        ) by {
            assert(rel(s[i], s[j]));
        }
        lemma_filter_pairs(rest, keep, rel);
        let t = s.filter(keep);
        let tr = rest.filter(keep);
        assert forall|a: int, b: int|
            #![trigger t[a], t[b]]
            0 <= a < b < t.len() implies rel(t[a], t[b]) by {
            if b < tr.len() {
                assert(rel(tr[a], tr[b]));
            } else {
                assert(tr.contains(tr[a]));
                rest.lemma_filter_contains_rev(keep, tr[a]);
                let i = choose|i: int| 0 <= i < rest.len() && rest[i] == tr[a];
                assert(rel(s[i], s[s.len() - 1]));
            }
        }
    }
}

/// A filter keeps every element that meets its condition.
pub proof fn lemma_filter_holds<A>(s: Seq<A>, keep: spec_fn(A) -> bool, i: int)
    requires
        0 <= i < s.len(),
        keep(s[i]),
    ensures
        s.filter(keep).contains(s[i]),
{
    broadcast use vstd::seq_lib::group_filter_ensures;

}

/// The first `limit` elements of a sequence, or all of it where it has no
/// more.
pub open spec fn limited<A>(s: Seq<A>, limit: usize) -> Seq<A> {
    if limit >= s.len() {
        s
    } else {
        s.take(limit as int)
    }
}

} // verus!
