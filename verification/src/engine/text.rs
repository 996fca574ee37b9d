//! Byte-level text handling shared by the chunker and the lexical index:
//! word boundaries, case folding, the lexer and byte-string comparison.

use vstd::prelude::*;

verus! {

/// A byte that belongs to a word: an ASCII letter or digit, an underscore,
/// or any byte of a multi-byte UTF-8 sequence.
pub open spec fn is_word_byte(b: u8) -> bool {
    (0x30 <= b && b <= 0x39) || (0x41 <= b && b <= 0x5a) || (0x61 <= b && b <= 0x7a) || b == 0x5f
        || b >= 0x80
}

/// The case-folded form of a byte: ASCII upper case becomes lower case.
pub open spec fn fold_byte(b: u8) -> u8 {
    if 0x41 <= b && b <= 0x5a {
        (b + 0x20) as u8
    } else {
        b
    }
}

/// Decides whether a byte belongs to a word.
#[verifier::when_used_as_spec(is_word_byte)]
pub fn word_byte(b: u8) -> (r: bool)
    ensures
        r == is_word_byte(b),
{
    (0x30 <= b && b <= 0x39) || (0x41 <= b && b <= 0x5a) || (0x61 <= b && b <= 0x7a) || b == 0x5f
        || b >= 0x80
}

/// The case-folded form of a byte.
#[verifier::when_used_as_spec(fold_byte)]
pub fn lower_byte(b: u8) -> (r: u8)
    ensures
        r == fold_byte(b),
{
    if 0x41 <= b && b <= 0x5a {
        b + 0x20
    } else {
        b
    }
}

/// What a lexeme is: a word, a double quote, or a star that directly
/// follows a word.
#[derive(Clone, Copy, PartialEq, Eq, Structural, Debug)]
pub enum LexKind {
    Word,
    Quote,
    Star,
}

/// One lexeme of a text. `word` holds the folded bytes of a `Word` and is
/// empty for the two punctuation kinds.
#[derive(Debug)]
pub struct Lexeme {
    pub kind: LexKind,
    pub word: Vec<u8>,
}

impl View for Lexeme {
    type V = (LexKind, Seq<u8>);

    open spec fn view(&self) -> (LexKind, Seq<u8>) {
        (self.kind, self.word@)
    }
}

/// The views of a vector's elements, in order.
pub open spec fn views<T: View>(v: Seq<T>) -> Seq<T::V> {
    Seq::new(v.len(), |i: int| v[i]@)
}

/// The word in progress, as a lexeme sequence of length zero or one.
pub open spec fn flush(w: Seq<u8>) -> Seq<(LexKind, Seq<u8>)> {
    if w.len() == 0 {
        Seq::empty()
    } else {
        seq![(LexKind::Word, w)]
    }
}

/// The punctuation lexeme that the non-word byte at `i` stands for, if any.
pub open spec fn punct(t: Seq<u8>, i: int) -> Seq<(LexKind, Seq<u8>)> {
    if t[i] == 0x22 {
        seq![(LexKind::Quote, Seq::empty())]
    } else if t[i] == 0x2a && i > 0 && is_word_byte(t[i - 1]) {
        seq![(LexKind::Star, Seq::empty())]
    } else {
        Seq::empty()
    }
}

/// The lexemes of `t` from byte `i` on, with `w` the folded word in progress.
pub open spec fn scan(t: Seq<u8>, i: int, w: Seq<u8>) -> Seq<(LexKind, Seq<u8>)>
    decreases t.len() - i,
{
    if i < 0 || i >= t.len() {
        flush(w)
    } else if is_word_byte(t[i]) {
        scan(t, i + 1, w.push(fold_byte(t[i])))
    } else {
        flush(w) + punct(t, i) + scan(t, i + 1, Seq::empty())
    }
}

/// The lexemes of a text: maximal runs of word bytes, case-folded, with
/// every double quote and every star that directly follows a word.
pub open spec fn lex(t: Seq<u8>) -> Seq<(LexKind, Seq<u8>)> {
    scan(t, 0, Seq::empty())
}

/// The words among a lexeme sequence, in order.
pub open spec fn words(lx: Seq<(LexKind, Seq<u8>)>) -> Seq<Seq<u8>> {
    lx.filter(|l: (LexKind, Seq<u8>)| l.0 == LexKind::Word).map_values(
        |l: (LexKind, Seq<u8>)| l.1,
    )
}

/// The tokens of a text: its words, case-folded, in order.
pub open spec fn tokens(t: Seq<u8>) -> Seq<Seq<u8>> {
    words(lex(t))
}

/// Splits a text into lexemes.
pub fn lex_text(text: &[u8]) -> (out: Vec<Lexeme>)
    ensures
        views(out@) == lex(text@),
{
    let mut out: Vec<Lexeme> = Vec::new();
    let mut cur: Vec<u8> = Vec::new();
    let mut i: usize = 0;
    while i < text.len()
        invariant
            i <= text.len(),
            views(out@) + scan(text@, i as int, cur@) == lex(text@),
        decreases text.len() - i,
    {
        let b = text[i];
        let ghost before = views(out@);
        let ghost w = cur@;
        if word_byte(b) {
            cur.push(lower_byte(b));
        } else {
            if cur.len() > 0 {
                out.push(Lexeme { kind: LexKind::Word, word: cur });
                cur = Vec::new();
            }
            assert(views(out@) =~= before + flush(w));
            let ghost mid = views(out@);
            if b == 0x22 {
                out.push(Lexeme { kind: LexKind::Quote, word: Vec::new() });
            } else if b == 0x2a && i > 0 && word_byte(text[i - 1]) {
                out.push(Lexeme { kind: LexKind::Star, word: Vec::new() });
            }
            assert(views(out@) =~= mid + punct(text@, i as int));
            assert(cur@ =~= Seq::<u8>::empty());
            assert(views(out@) + scan(text@, i + 1, cur@) =~= before + scan(text@, i as int, w));
        }
        i += 1;
    }
    if cur.len() > 0 {
        let ghost before = views(out@);
        let ghost w = cur@;
        out.push(Lexeme { kind: LexKind::Word, word: cur });
        assert(views(out@) =~= before + flush(w));
    }
    out
}

/// Splits a text into its tokens.
pub fn tokenize(text: &[u8]) -> (out: Vec<Vec<u8>>)
    ensures
        views(out@) == tokens(text@),
{
    let lexemes = lex_text(text);
    let mut out: Vec<Vec<u8>> = Vec::new();
    let mut i: usize = 0;
    while i < lexemes.len()
        invariant
            i <= lexemes.len(),
            views(out@) == words(views(lexemes@).take(i as int)),
        decreases lexemes.len() - i,
    {
        let ghost lx = views(lexemes@);
        let ghost before = views(out@);
        proof {
            lemma_words_push(lx.take(i as int), lx[i as int]);
            assert(lx.take(i + 1) =~= lx.take(i as int).push(lx[i as int]));
        }
        if lexemes[i].kind == LexKind::Word {
            let w = lexemes[i].word.clone();
            assert(w@ =~= lexemes[i as int].word@);
            out.push(w);
            assert(views(out@) =~= before.push(lx[i as int].1));
        }
        i += 1;
    }
    assert(views(lexemes@).take(lexemes.len() as int) =~= views(lexemes@));
    out
}

/// The words of a lexeme sequence extended by one lexeme.
pub proof fn lemma_words_push(lx: Seq<(LexKind, Seq<u8>)>, l: (LexKind, Seq<u8>))
    ensures
        words(lx.push(l)) == if l.0 == LexKind::Word {
            words(lx).push(l.1)
        } else {
            words(lx)
        },
{
    let pred = |l: (LexKind, Seq<u8>)| l.0 == LexKind::Word;
    lx.lemma_filter_push(l, pred);
    if l.0 == LexKind::Word {
        assert(words(lx.push(l)) =~= words(lx).push(l.1));
    }
}

/// The words of two lexeme sequences laid end to end.
pub proof fn lemma_words_add(a: Seq<(LexKind, Seq<u8>)>, b: Seq<(LexKind, Seq<u8>)>)
    ensures
        words(a + b) == words(a) + words(b),
{
    let pred = |l: (LexKind, Seq<u8>)| l.0 == LexKind::Word;
    Seq::filter_distributes_over_add(a, b, pred);
    assert(words(a + b) =~= words(a) + words(b));
}

/// Whether two byte strings are equal.
pub fn bytes_eq(a: &[u8], b: &[u8]) -> (r: bool)
    ensures
        r == (a@ == b@),
{
    if a.len() != b.len() {
        return false;
    }
    let mut i: usize = 0;
    while i < a.len()
        invariant
            i <= a.len(),
            a.len() == b.len(),
            forall|j: int| 0 <= j < i ==> a@[j] == b@[j],
        decreases a.len() - i,
    {
        if a[i] != b[i] {
            return false;
        }
        i += 1;
    }
    assert(a@ =~= b@);
    true
}

/// Whether `p` is a prefix of `t`.
pub fn starts_with(t: &[u8], p: &[u8]) -> (r: bool)
    ensures
        r == p@.is_prefix_of(t@),
{
    if p.len() > t.len() {
        return false;
    }
    let mut i: usize = 0;
    while i < p.len()
        invariant
            i <= p.len(),
            p.len() <= t.len(),
            forall|j: int| 0 <= j < i ==> p@[j] == t@[j],
        decreases p.len() - i,
    {
        if p[i] != t[i] {
            assert(p@[i as int] != t@.subrange(0, p@.len() as int)[i as int]);
            return false;
        }
        i += 1;
    }
    assert(p@ =~= t@.subrange(0, p@.len() as int));
    true
}

/// The first index from `i` on at which `a` and `b` differ or one of them ends.
pub open spec fn mismatch(a: Seq<u8>, b: Seq<u8>, i: int) -> int
    decreases a.len() - i,
{
    if 0 <= i && i < a.len() && i < b.len() && a[i] == b[i] {
        mismatch(a, b, i + 1)
    } else {
        i
    }
}

/// Strict lexicographic order on byte strings: at the first difference the
/// smaller byte decides; a proper prefix comes first.
pub open spec fn bytes_before(a: Seq<u8>, b: Seq<u8>) -> bool {
    let k = mismatch(a, b, 0);
    if k < a.len() && k < b.len() {
        a[k] < b[k]
    } else {
        a.len() < b.len()
    }
}

/// Whether `a` comes strictly before `b` in lexicographic order.
pub fn bytes_lt(a: &[u8], b: &[u8]) -> (r: bool)
    ensures
        r == bytes_before(a@, b@),
{
    let mut i: usize = 0;
    while i < a.len() && i < b.len() && a[i] == b[i]
        invariant
            i <= a.len(),
            i <= b.len(),
            mismatch(a@, b@, i as int) == mismatch(a@, b@, 0),
        decreases a.len() - i,
    {
        i += 1;
    }
    if i < a.len() && i < b.len() {
        a[i] < b[i]
    } else {
        a.len() < b.len()
    }
}

/// Where the first difference between two byte strings lies.
pub proof fn lemma_mismatch(a: Seq<u8>, b: Seq<u8>, i: int)
    requires
        0 <= i <= a.len(),
        i <= b.len(),
    ensures
        i <= mismatch(a, b, i) <= a.len(),
        mismatch(a, b, i) <= b.len(),
        forall|j: int| i <= j < mismatch(a, b, i) ==> a[j] == b[j],
        mismatch(a, b, i) < a.len() && mismatch(a, b, i) < b.len() ==> a[mismatch(a, b, i)]
            != b[mismatch(a, b, i)],
    decreases a.len() - i,
{
    if i < a.len() && i < b.len() && a[i] == b[i] {
        lemma_mismatch(a, b, i + 1);
    }
}

/// Lexicographic order is total on distinct strings and never holds both ways.
pub proof fn lemma_bytes_before_total(a: Seq<u8>, b: Seq<u8>)
    ensures
        a == b || bytes_before(a, b) || bytes_before(b, a),
        !(bytes_before(a, b) && bytes_before(b, a)),
        !bytes_before(a, a),
{
    lemma_mismatch(a, b, 0);
    lemma_mismatch(b, a, 0);
    lemma_mismatch(a, a, 0);
    let k = mismatch(a, b, 0);
    let m = mismatch(b, a, 0);
    if k < m {
        assert(b[k] == a[k]);
    }
    if m < k {
        assert(a[m] == b[m]);
    }
    if a.len() == b.len() && k == a.len() {
        assert(a =~= b);
    }
}

/// Lexicographic order is transitive.
pub proof fn lemma_bytes_before_trans(a: Seq<u8>, b: Seq<u8>, c: Seq<u8>)
    requires
        bytes_before(a, b),
        bytes_before(b, c),
    ensures
        bytes_before(a, c),
{
    lemma_mismatch(a, b, 0);
    lemma_mismatch(b, c, 0);
    lemma_mismatch(a, c, 0);
    let x = mismatch(a, b, 0);
    let y = mismatch(b, c, 0);
    let z = mismatch(a, c, 0);
    let m = if x < y { x } else { y };
    if z < m {
        assert(a[z] == b[z]);
        assert(b[z] == c[z]);
    }
    if z > m {
        assert(a[m] == c[m]);
    }
}

/// The offset basis of the 64-bit FNV-1a hash.
pub const HASH_BASIS: u64 = 0xcbf29ce484222325;

/// The prime of the 64-bit FNV-1a hash.
pub const HASH_PRIME: u64 = 0x100000001b3;

/// The content hash of a byte string: 64-bit FNV-1a.
pub open spec fn content_hash(s: Seq<u8>) -> u64
    decreases s.len(),
{
    if s.len() == 0 {
        HASH_BASIS
    } else {
        (content_hash(s.drop_last()) ^ (s.last() as u64)).wrapping_mul(HASH_PRIME)
    }
}

/// Computes the content hash of a byte string.
pub fn hash_bytes(data: &[u8]) -> (h: u64)
    ensures
        h == content_hash(data@),
{
    let mut h: u64 = HASH_BASIS;
    let mut i: usize = 0;
    while i < data.len()
        invariant
            i <= data.len(),
            h == content_hash(data@.take(i as int)),
        decreases data.len() - i,
    {
        assert(data@.take(i + 1).drop_last() =~= data@.take(i as int));
        h = (h ^ (data[i] as u64)).wrapping_mul(HASH_PRIME);
        i += 1;
    }
    assert(data@.take(data.len() as int) =~= data@);
    h
}

/// Where the line that holds byte `p` ends: behind the next line feed at
/// or after `p`, or at the end of the text.
pub open spec fn line_end(t: Seq<u8>, p: int) -> int
    decreases t.len() - p,
{
    if p < 0 || p >= t.len() {
        t.len() as int
    } else if t[p] == 0x0a {
        p + 1
    } else {
        line_end(t, p + 1)
    }
}

/// A line that starts inside the text ends behind its start and inside
/// the text, and holds no line feed but at its end.
pub proof fn lemma_line_end(t: Seq<u8>, p: int)
    requires
        0 <= p < t.len(),
    ensures
        p < line_end(t, p) <= t.len(),
        forall|k: int| p <= k < line_end(t, p) - 1 ==> t[k] != 0x0a,
    decreases t.len() - p,
{
    if t[p] != 0x0a {
        if p + 1 < t.len() {
            lemma_line_end(t, p + 1);
        } else {
            assert(line_end(t, p + 1) == t.len());
        }
    }
}

/// Finds where the line that holds byte `p` ends.
pub fn find_line_end(text: &[u8], p: usize) -> (e: usize)
    requires
        p < text.len(),
    ensures
        e == line_end(text@, p as int),
        p < e <= text.len(),
{
    let mut i: usize = p;
    while i < text.len() && text[i] != 0x0a
        invariant
            p <= i <= text.len(),
            line_end(text@, i as int) == line_end(text@, p as int),
        decreases text.len() - i,
    {
        i += 1;
    }
    if i < text.len() {
        i + 1
    } else {
        i
    }
}

/// Whether the bytes of `pat` stand in `t` from byte `p` on.
pub open spec fn stands_at(t: Seq<u8>, p: int, pat: Seq<u8>) -> bool {
    0 <= p && p + pat.len() <= t.len() && t.subrange(p, p + pat.len()) == pat
}

/// Decides whether the bytes of `pat` stand in `text` from byte `p` on.
pub fn found_at(text: &[u8], p: usize, pat: &[u8]) -> (r: bool)
    ensures
        r == stands_at(text@, p as int, pat@),
{
    if p > text.len() || pat.len() > text.len() - p {
        return false;
    }
    let mut j: usize = 0;
    while j < pat.len()
        invariant
            j <= pat.len(),
            p + pat.len() <= text.len(),
            forall|m: int| 0 <= m < j ==> text@[p + m] == pat@[m],
        decreases pat.len() - j,
    {
        if text[p + j] != pat[j] {
            assert(text@.subrange(p as int, p + pat.len())[j as int] != pat@[j as int]);
            return false;
        }
        j += 1;
    }
    assert(text@.subrange(p as int, p + pat.len()) =~= pat@);
    true
}

/// A copy of the bytes of `text` from `from` up to `to`.
pub fn copy_range(text: &[u8], from: usize, to: usize) -> (r: Vec<u8>)
    requires
        from <= to <= text.len(),
    ensures
        r@ == text@.subrange(from as int, to as int),
{
    let mut r: Vec<u8> = Vec::new();
    let mut i: usize = from;
    while i < to
        invariant
            from <= i <= to,
            to <= text.len(),
            r@ == text@.subrange(from as int, i as int),
        decreases to - i,
    {
        r.push(text[i]);
        assert(text@.subrange(from as int, i + 1) =~= text@.subrange(from as int, i as int).push(
            text@[i as int],
        ));
        i += 1;
    }
    r
}

} // verus!
