//! The manifest of a repository as it is written to disk: the repository's
//! id, the model of its embeddings and the content hash of each document,
//! as bytes under a checksum. A manifest that does not read back is
//! corrupt, and the repository is walked anew.

use vstd::bytes::{
    lemma_auto_spec_u64_to_from_le_bytes, spec_u64_from_le_bytes, spec_u64_to_le_bytes,
    u64_from_le_bytes, u64_to_le_bytes,
};
use vstd::prelude::*;
use vstd::slice::slice_subrange;
use crate::engine::text::{content_hash, copy_range, hash_bytes, views};

verus! {

/// One document of a manifest: its path and its content hash.
#[derive(Debug)]
pub struct ManifestEntry {
    pub path: Vec<u8>,
    pub content_hash: u64,
}

impl View for ManifestEntry {
    type V = (Seq<u8>, u64);

    open spec fn view(&self) -> (Seq<u8>, u64) {
        (self.path@, self.content_hash)
    }
}

/// The manifest of a repository.
#[derive(Debug)]
pub struct Manifest {
    pub repo_id: u64,
    pub model_id: Vec<u8>,
    pub documents: Vec<ManifestEntry>,
}

/// A `Manifest` as contracts see it.
pub struct ManifestView {
    pub repo_id: u64,
    pub model_id: Seq<u8>,
    pub documents: Seq<(Seq<u8>, u64)>,
}

impl View for Manifest {
    type V = ManifestView;

    open spec fn view(&self) -> ManifestView {
        ManifestView {
            repo_id: self.repo_id,
            model_id: self.model_id@,
            documents: views(self.documents@),
        }
    }
}

/// A number as eight bytes, the lowest first.
pub open spec fn word(x: u64) -> Seq<u8> {
    spec_u64_to_le_bytes(x)
}

/// A byte string behind its length.
pub open spec fn framed(b: Seq<u8>) -> Seq<u8> {
    word(b.len() as u64) + b
}

/// A document as bytes: its path behind the path's length, then its
/// content hash.
pub open spec fn entry_bytes(e: (Seq<u8>, u64)) -> Seq<u8> {
    framed(e.0) + word(e.1)
}

/// Documents as bytes, one behind the other.
pub open spec fn entries_bytes(es: Seq<(Seq<u8>, u64)>) -> Seq<u8>
    decreases es.len(),
{
    if es.len() == 0 {
        Seq::empty()
    } else {
        entry_bytes(es[0]) + entries_bytes(es.drop_first())
    }
}

/// A manifest as bytes without its checksum: the repository's id, the
/// model's name behind its length, the number of documents, and the
/// documents.
pub open spec fn body(m: ManifestView) -> Seq<u8> {
    word(m.repo_id) + framed(m.model_id) + word(m.documents.len() as u64) + entries_bytes(
        m.documents,
    )
}

/// A manifest as bytes: its body, and the content hash of the body as
/// checksum.
pub open spec fn encoded(m: ManifestView) -> Seq<u8> {
    body(m) + word(content_hash(body(m)))
}

/// The number that stands at `at`, and where the bytes behind it begin.
pub open spec fn read_word(b: Seq<u8>, at: int) -> Option<(u64, int)> {
    if 0 <= at && at + 8 <= b.len() {
        Some((spec_u64_from_le_bytes(b.subrange(at, at + 8)), at + 8))
    } else {
        None
    }
}

/// The byte string that stands at `at` behind its length, and where the
/// bytes behind it begin.
pub open spec fn read_framed(b: Seq<u8>, at: int) -> Option<(Seq<u8>, int)> {
    match read_word(b, at) {
        Some((n, next)) => if next + n <= b.len() {
            Some((b.subrange(next, next + n), next + n))
        } else {
            None
        },
        None => None,
    }
}

/// The document that stands at `at`, and where the bytes behind it begin.
pub open spec fn read_entry(b: Seq<u8>, at: int) -> Option<((Seq<u8>, u64), int)> {
    match read_framed(b, at) {
        Some((path, next)) => match read_word(b, next) {
            Some((hash, end)) => Some(((path, hash), end)),
            None => None,
        },
        None => None,
    }
}

/// Documents in front of what is read behind them.
pub open spec fn behind(
    es: Seq<(Seq<u8>, u64)>,
    rest: Option<(Seq<(Seq<u8>, u64)>, int)>,
) -> Option<(Seq<(Seq<u8>, u64)>, int)> {
    match rest {
        Some((r, end)) => Some((es + r, end)),
        None => None,
    }
}

/// The `count` documents that stand at `at`, and where the bytes behind
/// them begin.
pub open spec fn read_entries(b: Seq<u8>, at: int, count: nat) -> Option<
    (Seq<(Seq<u8>, u64)>, int),
>
    decreases count,
{
    if count == 0 {
        Some((Seq::empty(), at))
    } else {
        match read_entry(b, at) {
            Some((e, next)) => behind(seq![e], read_entries(b, next, (count - 1) as nat)),
            None => None,
        }
    }
}

/// The manifest that a body stands for: none where the bytes run out, or
/// where bytes are left over.
pub open spec fn read_body(b: Seq<u8>) -> Option<ManifestView> {
    match read_word(b, 0) {
        Some((repo_id, a)) => match read_framed(b, a) {
            Some((model_id, c)) => match read_word(b, c) {
                Some((count, d)) => match read_entries(b, d, count as nat) {
                    Some((documents, end)) => if end == b.len() {
                        Some(ManifestView { repo_id, model_id, documents })
                    } else {
                        None
                    },
                    None => None,
                },
                None => None,
            },
            None => None,
        },
        None => None,
    }
}

/// The manifest that bytes stand for: none where they are too short for a
/// checksum, where the checksum is not the content hash of the body, or
/// where the body does not read as a manifest.
pub open spec fn decoded(b: Seq<u8>) -> Option<ManifestView> {
    if b.len() < 8 {
        None
    } else {
        let cut = b.len() - 8;
        if spec_u64_from_le_bytes(b.subrange(cut, b.len() as int)) == content_hash(
            b.subrange(0, cut),
        ) {
            read_body(b.subrange(0, cut))
        } else {
            None
        }
    }
}

/// Appends a number as eight bytes.
fn put_word(out: &mut Vec<u8>, x: u64)
    ensures
        final(out)@ == old(out)@ + word(x),
{
    let mut bytes = u64_to_le_bytes(x);
    out.append(&mut bytes);
}

/// Appends a byte string behind its length.
fn put_framed(out: &mut Vec<u8>, b: &[u8])
    ensures
        final(out)@ == old(out)@ + framed(b@),
{
    let ghost start = out@;
    put_word(out, b.len() as u64);
    let ghost mid = out@;
    let mut i: usize = 0;
    while i < b.len()
        invariant
            i <= b.len(),
            out@ == mid + b@.take(i as int),
        decreases b.len() - i,
    {
        out.push(b[i]);
        assert(b@.take(i + 1) =~= b@.take(i as int).push(b@[i as int]));
        assert(out@ =~= mid + b@.take(i + 1));
        i += 1;
    }
    assert(b@.take(b.len() as int) =~= b@);
    assert(out@ =~= start + framed(b@));
}

/// Documents as bytes, with one more document behind them.
pub proof fn lemma_entries_bytes_push(es: Seq<(Seq<u8>, u64)>, e: (Seq<u8>, u64))
    ensures
        entries_bytes(es.push(e)) == entries_bytes(es) + entry_bytes(e),
    decreases es.len(),
{
    if es.len() == 0 {
        assert(es.push(e).drop_first() =~= Seq::<(Seq<u8>, u64)>::empty());
        assert(es.push(e)[0] == e);
        assert(entries_bytes(es.push(e).drop_first()) =~= Seq::<u8>::empty());
        assert(entries_bytes(es) =~= Seq::<u8>::empty());
        assert(entries_bytes(es.push(e)) =~= entry_bytes(e) + entries_bytes(
            es.push(e).drop_first(),
        ));
        assert(entries_bytes(es.push(e)) =~= entries_bytes(es) + entry_bytes(e));
    } else {
        lemma_entries_bytes_push(es.drop_first(), e);
        assert(es.push(e).drop_first() =~= es.drop_first().push(e));
        assert(entries_bytes(es.push(e)) =~= entries_bytes(es) + entry_bytes(e));
    }
}

impl Manifest {
    /// Writes the manifest as bytes.
    pub fn encode(&self) -> (out: Vec<u8>)
        ensures
            out@ == encoded(self@),
    {
        let mut out: Vec<u8> = Vec::new();
        put_word(&mut out, self.repo_id);
        put_framed(&mut out, self.model_id.as_slice());
        put_word(&mut out, self.documents.len() as u64);
        let ghost head = out@;
        let ghost docs = views(self.documents@);
        let mut i: usize = 0;
        assert(out@ =~= head + entries_bytes(docs.take(0)));
        while i < self.documents.len()
            invariant
                i <= self.documents.len(),
                docs == views(self.documents@),
                out@ == head + entries_bytes(docs.take(i as int)),
            decreases self.documents.len() - i,
        {
            let ghost before = out@;
            assert(docs[i as int] == self.documents[i as int]@);
            put_framed(&mut out, self.documents[i].path.as_slice());
            put_word(&mut out, self.documents[i].content_hash);
            proof {
                lemma_entries_bytes_push(docs.take(i as int), docs[i as int]);
                assert(docs.take(i + 1) =~= docs.take(i as int).push(docs[i as int]));
                assert(out@ =~= before + entry_bytes(docs[i as int]));
            }
            i += 1;
        }
        assert(docs.take(docs.len() as int) =~= docs);
        assert(out@ =~= body(self@));
        let sum = hash_bytes(out.as_slice());
        put_word(&mut out, sum);
        out
    }
}

/// Reads the number that stands at `at`.
fn take_word(b: &[u8], at: usize) -> (r: Option<(u64, usize)>)
    ensures
        match r {
            Some((x, next)) => read_word(b@, at as int) == Some((x, next as int)),
            None => read_word(b@, at as int) is None,
        },
{
    if at > b.len() || b.len() - at < 8 {
        return None;
    }
    let x = u64_from_le_bytes(slice_subrange(b, at, at + 8));
    Some((x, at + 8))
}

/// Reads the byte string that stands at `at` behind its length.
fn take_framed(b: &[u8], at: usize) -> (r: Option<(Vec<u8>, usize)>)
    ensures
        match r {
            Some((s, next)) => read_framed(b@, at as int) == Some((s@, next as int)),
            None => read_framed(b@, at as int) is None,
        },
{
    let (n, next) = match take_word(b, at) {
        Some(w) => w,
        None => {
            return None;
        },
    };
    if n > (b.len() - next) as u64 {
        return None;
    }
    let end = next + n as usize;
    Some((copy_range(b, next, end), end))
}

/// Reads the document that stands at `at`.
fn take_entry(b: &[u8], at: usize) -> (r: Option<(ManifestEntry, usize)>)
    ensures
        match r {
            Some((e, next)) => read_entry(b@, at as int) == Some((e@, next as int)),
            None => read_entry(b@, at as int) is None,
        },
{
    let (path, next) = match take_framed(b, at) {
        Some(p) => p,
        None => {
            return None;
        },
    };
    let (content_hash, end) = match take_word(b, next) {
        Some(w) => w,
        None => {
            return None;
        },
    };
    Some((ManifestEntry { path, content_hash }, end))
}

/// Documents in front of documents in front of what is read behind them.
pub proof fn lemma_behind(
    a: Seq<(Seq<u8>, u64)>,
    e: Seq<(Seq<u8>, u64)>,
    rest: Option<(Seq<(Seq<u8>, u64)>, int)>,
)
    ensures
        behind(a, behind(e, rest)) == behind(a + e, rest),
{
    if let Some((r, end)) = rest {
        assert(a + (e + r) =~= (a + e) + r);
    }
}

/// Reads the manifest that a body stands for.
fn take_body(b: &[u8]) -> (r: Option<Manifest>)
    ensures
        match r {
            Some(m) => read_body(b@) == Some(m@),
            None => read_body(b@) is None,
        },
{
    let (repo_id, a) = match take_word(b, 0) {
        Some(w) => w,
        None => {
            return None;
        },
    };
    let (model_id, c) = match take_framed(b, a) {
        Some(f) => f,
        None => {
            return None;
        },
    };
    let (count, d) = match take_word(b, c) {
        Some(w) => w,
        None => {
            return None;
        },
    };
    let mut documents: Vec<ManifestEntry> = Vec::new();
    let mut at: usize = d;
    let mut left: u64 = count;
    let ghost whole = read_entries(b@, d as int, count as nat);
    proof {
        assert(views(documents@) =~= Seq::<(Seq<u8>, u64)>::empty());
        if let Some((r, end)) = whole {
            assert(Seq::<(Seq<u8>, u64)>::empty() + r =~= r);
        }
    }
    while left > 0
        invariant
            read_word(b@, 0) == Some((repo_id, a as int)),
            read_framed(b@, a as int) == Some((model_id@, c as int)),
            read_word(b@, c as int) == Some((count, d as int)),
            whole == read_entries(b@, d as int, count as nat),
            whole == behind(views(documents@), read_entries(b@, at as int, left as nat)),
        decreases left,
    {
        let ghost before = views(documents@);
        let (e, next) = match take_entry(b, at) {
            Some(e) => e,
            None => {
                return None;
            },
        };
        let ghost ev = e@;
        documents.push(e);
        proof {
            assert(views(documents@) =~= before + seq![ev]);
            lemma_behind(before, seq![ev], read_entries(b@, next as int, (left - 1) as nat));
        }
        at = next;
        left = left - 1;
    }
    proof {
        assert(views(documents@) + Seq::<(Seq<u8>, u64)>::empty() =~= views(documents@));
    }
    if at != b.len() {
        return None;
    }
    Some(Manifest { repo_id, model_id, documents })
}

impl Manifest {
    /// Reads a manifest from bytes: none where the checksum does not
    /// hold or the bytes do not read as a manifest.
    pub fn decode(b: &[u8]) -> (r: Option<Manifest>)
        ensures
            match r {
                Some(m) => decoded(b@) == Some(m@),
                None => decoded(b@) is None,
            },
    {
        if b.len() < 8 {
            return None;
        }
        let cut = b.len() - 8;
        let sum = u64_from_le_bytes(slice_subrange(b, cut, b.len()));
        let front = slice_subrange(b, 0, cut);
        if sum != hash_bytes(front) {
            return None;
        }
        take_body(front)
    }
}

/// Whether the lengths of a manifest can be written as numbers.
pub open spec fn writable(m: ManifestView) -> bool {
    &&& m.model_id.len() <= u64::MAX
    &&& m.documents.len() <= u64::MAX
    &&& forall|i: int| 0 <= i < m.documents.len() ==> (#[trigger] m.documents[i]).0.len() <= u64::MAX
}

/// A number that was written reads back.
pub proof fn lemma_read_word(a: Seq<u8>, x: u64, c: Seq<u8>)
    ensures
        word(x).len() == 8,
        read_word(a + word(x) + c, a.len() as int) == Some((x, (a.len() + 8) as int)),
{
    lemma_auto_spec_u64_to_from_le_bytes();
    assert((a + word(x) + c).subrange(a.len() as int, (a.len() + 8) as int) =~= word(x));
}

/// A byte string that was written behind its length reads back.
pub proof fn lemma_read_framed(a: Seq<u8>, f: Seq<u8>, c: Seq<u8>)
    requires
        f.len() <= u64::MAX,
    ensures
        framed(f).len() == 8 + f.len(),
        read_framed(a + framed(f) + c, a.len() as int) == Some((f, (a.len() + 8 + f.len()) as int)),
{
    let b = a + framed(f) + c;
    lemma_read_word(a, f.len() as u64, f + c);
    assert(b =~= a + word(f.len() as u64) + (f + c));
    assert(b.subrange((a.len() + 8) as int, (a.len() + 8 + f.len()) as int) =~= f);
}

/// A document that was written reads back.
pub proof fn lemma_read_entry(a: Seq<u8>, e: (Seq<u8>, u64), c: Seq<u8>)
    requires
        e.0.len() <= u64::MAX,
    ensures
        entry_bytes(e).len() == 16 + e.0.len(),
        read_entry(a + entry_bytes(e) + c, a.len() as int) == Some(
            (e, (a.len() + entry_bytes(e).len()) as int),
        ),
{
    let b = a + entry_bytes(e) + c;
    lemma_read_framed(a, e.0, word(e.1) + c);
    assert(b =~= a + framed(e.0) + (word(e.1) + c));
    lemma_read_word(a + framed(e.0), e.1, c);
    assert(b =~= (a + framed(e.0)) + word(e.1) + c);
}

/// Documents that were written read back.
pub proof fn lemma_read_entries(a: Seq<u8>, es: Seq<(Seq<u8>, u64)>, c: Seq<u8>)
    requires
        forall|i: int| 0 <= i < es.len() ==> (#[trigger] es[i]).0.len() <= u64::MAX,
    ensures
        read_entries(a + entries_bytes(es) + c, a.len() as int, es.len()) == Some(
            (es, (a.len() + entries_bytes(es).len()) as int),
        ),
    decreases es.len(),
{
    let b = a + entries_bytes(es) + c;
    if es.len() == 0 {
        assert(entries_bytes(es) =~= Seq::<u8>::empty());
        assert(es =~= Seq::<(Seq<u8>, u64)>::empty());
    } else {
        let first = es[0];
        let rest = es.drop_first();
        lemma_read_entry(a, first, entries_bytes(rest) + c);
        assert(b =~= a + entry_bytes(first) + (entries_bytes(rest) + c));
        assert forall|i: int| 0 <= i < rest.len() implies (#[trigger] rest[i]).0.len()
            <= u64::MAX by {
            assert(rest[i] == es[i + 1]);
        }
        lemma_read_entries(a + entry_bytes(first), rest, c);
        assert(b =~= (a + entry_bytes(first)) + entries_bytes(rest) + c);
        assert(seq![first] + rest =~= es);
    }
}

/// A manifest that was written reads back: decoding the bytes of a
/// manifest gives the manifest.
pub proof fn lemma_manifest_round_trip(m: ManifestView)
    requires
        writable(m),
    ensures
        decoded(encoded(m)) == Some(m),
{
    let bd = body(m);
    let sum = content_hash(bd);
    let b = encoded(m);
    lemma_auto_spec_u64_to_from_le_bytes();
    assert(b.subrange(bd.len() as int, b.len() as int) =~= word(sum));
    assert(b.subrange(0, bd.len() as int) =~= bd);
    let count = m.documents.len() as u64;
    let tail1 = framed(m.model_id) + word(count) + entries_bytes(m.documents);
    lemma_read_word(Seq::empty(), m.repo_id, tail1);
    assert(bd =~= Seq::<u8>::empty() + word(m.repo_id) + tail1);
    let tail2 = word(count) + entries_bytes(m.documents);
    lemma_read_framed(word(m.repo_id), m.model_id, tail2);
    assert(bd =~= word(m.repo_id) + framed(m.model_id) + tail2);
    let head3 = word(m.repo_id) + framed(m.model_id);
    lemma_read_word(head3, count, entries_bytes(m.documents));
    assert(bd =~= head3 + word(count) + entries_bytes(m.documents));
    let head4 = head3 + word(count);
    lemma_read_entries(head4, m.documents, Seq::empty());
    assert(bd =~= head4 + entries_bytes(m.documents) + Seq::<u8>::empty());
}

} // verus!
