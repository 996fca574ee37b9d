//! The query language of the lexical index: plain terms, quoted phrases and
//! prefix terms that end in a star.

use vstd::prelude::*;
use crate::engine::text::{
    LexKind, bytes_eq, lemma_words_add, lemma_words_push, lex, lex_text, starts_with, tokens, views,
    words,
};

verus! {

/// What a clause asks of a chunk.
#[derive(Clone, Copy, PartialEq, Eq, Structural, Debug)]
pub enum ClauseKind {
    /// The chunk holds the word.
    Term,
    /// The chunk holds a word that starts with the word.
    Prefix,
    /// The chunk holds the words one after the other.
    Phrase,
}

/// One clause of a query. A `Term` and a `Prefix` hold one word, a `Phrase`
/// at least one.
#[derive(Debug)]
pub struct Clause {
    pub kind: ClauseKind,
    pub words: Vec<Vec<u8>>,
}

pub type ClauseView = (ClauseKind, Seq<Seq<u8>>);

impl View for Clause {
    type V = ClauseView;

    open spec fn view(&self) -> ClauseView {
        (self.kind, views(self.words@))
    }
}

/// A parsed query: a chunk matches where it meets every clause.
#[derive(Debug)]
pub struct Query {
    pub clauses: Vec<Clause>,
}

impl View for Query {
    type V = Seq<ClauseView>;

    open spec fn view(&self) -> Seq<ClauseView> {
        views(self.clauses@)
    }
}

/// Why a query text is refused.
#[derive(Clone, Copy, PartialEq, Eq, Structural, Debug)]
pub enum QueryError {
    /// A phrase is opened by a double quote and never closed.
    UnbalancedQuote,
}

/// `c` in front of the clauses `rest`, where there are any.
pub open spec fn with_clause(c: Seq<ClauseView>, rest: Option<Seq<ClauseView>>) -> Option<
    Seq<ClauseView>,
> {
    match rest {
        Some(r) => Some(c + r),
        None => None,
    }
}

/// The phrase clause that a closing quote ends: none for an empty phrase.
pub open spec fn phrase_clause(ws: Seq<Seq<u8>>) -> Seq<ClauseView> {
    if ws.len() == 0 {
        Seq::empty()
    } else {
        seq![(ClauseKind::Phrase, ws)]
    }
}

/// The clauses of the lexemes from `i` on. `phrase` holds the words of the
/// phrase that is open at `i`, if one is. The result is `None` where the
/// lexemes end inside a phrase.
pub open spec fn parse_step(
    lx: Seq<(LexKind, Seq<u8>)>,
    i: int,
    phrase: Option<Seq<Seq<u8>>>,
) -> Option<Seq<ClauseView>>
    decreases lx.len() - i,
{
    if i < 0 || i >= lx.len() {
        if phrase is Some {
            None
        } else {
            Some(Seq::empty())
        }
    } else {
        match phrase {
            Some(ws) => {
                if lx[i].0 == LexKind::Quote {
                    with_clause(phrase_clause(ws), parse_step(lx, i + 1, None))
                } else if lx[i].0 == LexKind::Word {
                    parse_step(lx, i + 1, Some(ws.push(lx[i].1)))
                } else {
                    parse_step(lx, i + 1, Some(ws))
                }
            },
            None => {
                if lx[i].0 == LexKind::Quote {
                    parse_step(lx, i + 1, Some(Seq::empty()))
                } else if lx[i].0 == LexKind::Word {
                    if i + 1 < lx.len() && lx[i + 1].0 == LexKind::Star {
                        with_clause(
                            seq![(ClauseKind::Prefix, seq![lx[i].1])],
                            parse_step(lx, i + 2, None),
                        )
                    } else {
                        with_clause(
                            seq![(ClauseKind::Term, seq![lx[i].1])],
                            parse_step(lx, i + 1, None),
                        )
                    }
                } else {
                    parse_step(lx, i + 1, None)
                }
            },
        }
    }
}

/// The clauses of a query text: outside quotes every word is a term, or a
/// prefix term where a star follows it directly; the words between two
/// quotes are a phrase. `None` where a quote is left open.
pub open spec fn parse(text: Seq<u8>) -> Option<Seq<ClauseView>> {
    parse_step(lex(text), 0, None)
}

/// A copy of a word.
pub fn copy_word(w: &Vec<u8>) -> (r: Vec<u8>)
    ensures
        r@ == w@,
{
    let r = w.clone();
    assert(r@ =~= w@);
    r
}

/// Parses a query text.
pub fn parse_query(text: &[u8]) -> (r: Result<Query, QueryError>)
    ensures
        match r {
            Ok(q) => parse(text@) == Some(q@),
            Err(e) => parse(text@) is None,
        },
{
    let lexemes = lex_text(text);
    let ghost lx = views(lexemes@);
    let mut clauses: Vec<Clause> = Vec::new();
    let mut phrase: Option<Vec<Vec<u8>>> = None;
    let mut i: usize = 0;
    assert(views(clauses@) =~= Seq::<ClauseView>::empty());
    assert(with_clause(Seq::empty(), parse_step(lx, 0, None)) == parse_step(lx, 0, None)) by {
        if let Some(r) = parse_step(lx, 0, None) {
            assert(Seq::<ClauseView>::empty() + r =~= r);
        }
    }
    while i < lexemes.len()
        invariant
            i <= lexemes.len(),
            lx == views(lexemes@),
            lx == lex(text@),
            parse(text@) == with_clause(
                views(clauses@),
                parse_step(
                    lx,
                    i as int,
                    match phrase {
                        Some(ws) => Some(views(ws@)),
                        None => None,
                    },
                ),
            ),
        decreases lexemes.len() - i,
    {
        let ghost before = views(clauses@);
        assert(lx[i as int] == lexemes[i as int]@);
        let kind = lexemes[i].kind;
        match phrase {
            Some(ws) => {
                let ghost wsv = views(ws@);
                if kind == LexKind::Quote {
                    if ws.len() > 0 {
                        clauses.push(Clause { kind: ClauseKind::Phrase, words: ws });
                    }
                    assert(views(clauses@) =~= before + phrase_clause(wsv));
                    phrase = None;
                    proof {
                        lemma_with_clause(before, phrase_clause(wsv), parse_step(lx, i + 1, None));
                    }
                } else if kind == LexKind::Word {
                    let mut ws = ws;
                    ws.push(copy_word(&lexemes[i].word));
                    assert(views(ws@) =~= wsv.push(lx[i as int].1));
                    phrase = Some(ws);
                } else {
                    phrase = Some(ws);
                }
                i += 1;
            },
            None => {
                if kind == LexKind::Quote {
                    let ws: Vec<Vec<u8>> = Vec::new();
                    assert(views(ws@) =~= Seq::<Seq<u8>>::empty());
                    phrase = Some(ws);
                    i += 1;
                } else if kind == LexKind::Word {
                    let mut words: Vec<Vec<u8>> = Vec::new();
                    words.push(copy_word(&lexemes[i].word));
                    assert(views(words@) =~= seq![lx[i as int].1]);
                    if i + 1 < lexemes.len() && lexemes[i + 1].kind == LexKind::Star {
                        assert(lx[i + 1] == lexemes[i + 1]@);
                        let c = Clause { kind: ClauseKind::Prefix, words };
                        let ghost cv = c@;
                        clauses.push(c);
                        assert(views(clauses@) =~= before + seq![cv]);
                        proof {
                            lemma_with_clause(before, seq![cv], parse_step(lx, i + 2, None));
                        }
                        phrase = None;
                        i += 2;
                    } else {
                        proof {
                            if i + 1 < lexemes.len() {
                                assert(lx[i + 1] == lexemes[i + 1]@);
                            }
                        }
                        let c = Clause { kind: ClauseKind::Term, words };
                        let ghost cv = c@;
                        clauses.push(c);
                        assert(views(clauses@) =~= before + seq![cv]);
                        proof {
                            lemma_with_clause(before, seq![cv], parse_step(lx, i + 1, None));
                        }
                        phrase = None;
                        i += 1;
                    }
                } else {
                    phrase = None;
                    i += 1;
                }
            },
        }
    }
    match phrase {
        Some(_) => Err(QueryError::UnbalancedQuote),
        None => {
            assert(views(clauses@) + Seq::<ClauseView>::empty() =~= views(clauses@));
            Ok(Query { clauses })
        },
    }
}

/// Clauses in front of clauses in front of the rest.
pub proof fn lemma_with_clause(
    a: Seq<ClauseView>,
    b: Seq<ClauseView>,
    rest: Option<Seq<ClauseView>>,
)
    ensures
        with_clause(a, with_clause(b, rest)) == with_clause(a + b, rest),
{
    if let Some(r) = rest {
        assert(a + (b + r) =~= (a + b) + r);
    }
}

/// Whether the clause `c` is met at token `k` of `toks`: a prefix term where
/// its word starts that token, a term or a phrase where its words are the
/// tokens from `k` on.
pub open spec fn hit_at(toks: Seq<Seq<u8>>, c: ClauseView, k: int) -> bool {
    if c.0 == ClauseKind::Prefix {
        0 <= k < toks.len() && c.1.len() == 1 && c.1[0].is_prefix_of(toks[k])
    } else {
        0 <= k && c.1.len() > 0 && k + c.1.len() <= toks.len() && toks.subrange(
            k,
            k + c.1.len(),
        ) == c.1
    }
}

/// The number of positions below `n` at which `c` is met.
pub open spec fn hits(toks: Seq<Seq<u8>>, c: ClauseView, n: int) -> nat
    decreases n,
{
    if n <= 0 {
        0
    } else {
        hits(toks, c, n - 1) + if hit_at(toks, c, n - 1) {
            1nat
        } else {
            0nat
        }
    }
}

/// How often a token sequence meets a clause.
pub open spec fn frequency(toks: Seq<Seq<u8>>, c: ClauseView) -> nat {
    hits(toks, c, toks.len() as int)
}

/// Whether a token sequence matches a query: the query has a clause, and
/// each of its clauses is met somewhere.
pub open spec fn meets(toks: Seq<Seq<u8>>, q: Seq<ClauseView>) -> bool {
    q.len() > 0 && forall|j: int| 0 <= j < q.len() ==> frequency(toks, #[trigger] q[j]) > 0
}

/// A clause that is met at one position has a positive frequency.
pub proof fn lemma_hit_counts(toks: Seq<Seq<u8>>, c: ClauseView, k: int, n: int)
    requires
        hit_at(toks, c, k),
        k < n,
    ensures
        hits(toks, c, n) > 0,
    decreases n,
{
    if n - 1 > k {
        lemma_hit_counts(toks, c, k, n - 1);
    }
}

impl Clause {
    /// Decides whether the clause is met at token `k`.
    pub fn met_at(&self, tokens: &Vec<Vec<u8>>, k: usize) -> (r: bool)
        requires
            k < tokens.len(),
        ensures
            r == hit_at(views(tokens@), self@, k as int),
    {
        let ghost toks = views(tokens@);
        let ghost ws = views(self.words@);
        if self.kind == ClauseKind::Prefix {
            if self.words.len() != 1 {
                return false;
            }
            assert(ws[0] == self.words[0]@);
            assert(toks[k as int] == tokens[k as int]@);
            return starts_with(tokens[k].as_slice(), self.words[0].as_slice());
        }
        let n = self.words.len();
        if n == 0 || n > tokens.len() - k {
            return false;
        }
        let mut j: usize = 0;
        while j < n
            invariant
                j <= n,
                n == self.words.len(),
                self.kind != ClauseKind::Prefix,
                k + n <= tokens.len(),
                toks == views(tokens@),
                ws == views(self.words@),
                forall|m: int| 0 <= m < j ==> toks[k + m] == ws[m],
            decreases n - j,
        {
            assert(toks[k + j] == tokens[k + j]@);
            assert(ws[j as int] == self.words[j as int]@);
            if !bytes_eq(tokens[k + j].as_slice(), self.words[j].as_slice()) {
                assert(toks.subrange(k as int, k + n)[j as int] != ws[j as int]);
                return false;
            }
            j += 1;
        }
        assert(toks.subrange(k as int, k + n) =~= ws);
        true
    }

    /// Counts how often a token sequence meets the clause.
    pub fn count_in(&self, tokens: &Vec<Vec<u8>>) -> (n: usize)
        ensures
            n == frequency(views(tokens@), self@),
    {
        let mut n: usize = 0;
        let mut k: usize = 0;
        while k < tokens.len()
            invariant
                k <= tokens.len(),
                n <= k,
                n == hits(views(tokens@), self@, k as int),
            decreases tokens.len() - k,
        {
            if self.met_at(tokens, k) {
                n += 1;
            }
            k += 1;
        }
        n
    }
}

impl Query {
    /// Decides whether a token sequence matches the query.
    pub fn matches(&self, tokens: &Vec<Vec<u8>>) -> (r: bool)
        ensures
            r == meets(views(tokens@), self@),
    {
        if self.clauses.len() == 0 {
            return false;
        }
        let mut j: usize = 0;
        while j < self.clauses.len()
            invariant
                j <= self.clauses.len(),
                forall|m: int| 0 <= m < j ==> frequency(views(tokens@), #[trigger] self@[m]) > 0,
            decreases self.clauses.len() - j,
        {
            assert(self@[j as int] == self.clauses[j as int]@);
            if self.clauses[j].count_in(tokens) == 0 {
                return false;
            }
            j += 1;
        }
        true
    }
}

/// The words of the lexemes in front of `i`, those from `i` to `j`, and
/// those from `j` on make up the words of the whole.
pub proof fn lemma_words_split(lx: Seq<(LexKind, Seq<u8>)>, i: int, j: int)
    requires
        0 <= i <= j <= lx.len(),
    ensures
        words(lx) == words(lx.take(i)) + words(lx.subrange(i, j)) + words(lx.skip(j)),
{
    lemma_words_add(lx.take(i), lx.subrange(i, j));
    lemma_words_add(lx.take(i) + lx.subrange(i, j), lx.skip(j));
    assert(lx =~= lx.take(i) + lx.subrange(i, j) + lx.skip(j));
}

/// The words of a run of lexemes stand one after the other among the words
/// of the whole.
pub proof fn lemma_run_is_met(lx: Seq<(LexKind, Seq<u8>)>, i: int, j: int, kind: ClauseKind)
    requires
        0 <= i <= j <= lx.len(),
        words(lx.subrange(i, j)).len() > 0,
        kind != ClauseKind::Prefix,
    ensures
        frequency(words(lx), (kind, words(lx.subrange(i, j)))) > 0,
{
    lemma_words_split(lx, i, j);
    let toks = words(lx);
    let ws = words(lx.subrange(i, j));
    let k = words(lx.take(i)).len() as int;
    assert(toks.subrange(k, k + ws.len()) =~= ws);
    lemma_hit_counts(toks, (kind, ws), k, toks.len() as int);
}

/// A word lexeme is met, as a term and as a prefix term, by the words of
/// the whole.
pub proof fn lemma_word_is_met(lx: Seq<(LexKind, Seq<u8>)>, i: int, kind: ClauseKind)
    requires
        0 <= i < lx.len(),
        lx[i].0 == LexKind::Word,
    ensures
        frequency(words(lx), (kind, seq![lx[i].1])) > 0,
{
    lemma_words_split(lx, i, i + 1);
    assert(lx.subrange(i, i + 1) =~= Seq::<(LexKind, Seq<u8>)>::empty().push(lx[i]));
    lemma_words_push(Seq::empty(), lx[i]);
    assert(words(Seq::<(LexKind, Seq<u8>)>::empty()) =~= Seq::<Seq<u8>>::empty());
    let toks = words(lx);
    let ws = seq![lx[i].1];
    assert(words(lx.subrange(i, i + 1)) =~= ws);
    let k = words(lx.take(i)).len() as int;
    assert(toks[k] == lx[i].1);
    if kind == ClauseKind::Prefix {
        assert(lx[i].1 =~= toks[k].subrange(0, lx[i].1.len() as int));
        lemma_hit_counts(toks, (kind, ws), k, toks.len() as int);
    } else {
        assert(toks.subrange(k, k + 1) =~= ws);
        lemma_hit_counts(toks, (kind, ws), k, toks.len() as int);
    }
}

/// Every clause that parsing yields from lexeme `i` on is met by the words
/// of the whole lexeme sequence. `s` is where the open phrase began.
pub proof fn lemma_clauses_met(
    lx: Seq<(LexKind, Seq<u8>)>,
    i: int,
    phrase: Option<Seq<Seq<u8>>>,
    s: int,
)
    requires
        0 <= i <= lx.len(),
        phrase matches Some(ws) ==> 0 <= s <= i && ws == words(lx.subrange(s, i)),
        parse_step(lx, i, phrase) is Some,
    ensures
        forall|j: int|
            0 <= j < parse_step(lx, i, phrase).unwrap().len() ==> frequency(
                words(lx),
                #[trigger] parse_step(lx, i, phrase).unwrap()[j],
            ) > 0,
    decreases lx.len() - i,
{
    if i < lx.len() {
        match phrase {
            Some(ws) => {
                if lx[i].0 == LexKind::Quote {
                    lemma_clauses_met(lx, i + 1, None, 0);
                    if ws.len() > 0 {
                        lemma_run_is_met(lx, s, i, ClauseKind::Phrase);
                    }
                } else {
                    assert(lx.subrange(s, i + 1) =~= lx.subrange(s, i).push(lx[i]));
                    lemma_words_push(lx.subrange(s, i), lx[i]);
                    if lx[i].0 == LexKind::Word {
                        lemma_clauses_met(lx, i + 1, Some(ws.push(lx[i].1)), s);
                    } else {
                        lemma_clauses_met(lx, i + 1, Some(ws), s);
                    }
                }
            },
            None => {
                if lx[i].0 == LexKind::Quote {
                    assert(lx.subrange(i + 1, i + 1) =~= Seq::<(LexKind, Seq<u8>)>::empty());
                    assert(words(Seq::<(LexKind, Seq<u8>)>::empty()) =~= Seq::<Seq<u8>>::empty());
                    lemma_clauses_met(lx, i + 1, Some(Seq::empty()), i + 1);
                } else if lx[i].0 == LexKind::Word {
                    if i + 1 < lx.len() && lx[i + 1].0 == LexKind::Star {
                        lemma_clauses_met(lx, i + 2, None, 0);
                        lemma_word_is_met(lx, i, ClauseKind::Prefix);
                    } else {
                        lemma_clauses_met(lx, i + 1, None, 0);
                        lemma_word_is_met(lx, i, ClauseKind::Term);
                    }
                } else {
                    lemma_clauses_met(lx, i + 1, None, 0);
                }
            },
        }
    }
}

/// A text that parses as a query with at least one clause matches that
/// query: each of its terms, prefix terms and phrases stands in its own
/// tokens.
pub proof fn lemma_text_meets_own_query(text: Seq<u8>)
    requires
        parse(text) is Some,
        parse(text).unwrap().len() > 0,
    ensures
        meets(tokens(text), parse(text).unwrap()),
{
    lemma_clauses_met(lex(text), 0, None, 0);
}

} // verus!
