//! The relevance score of the lexical index: a BM25 score in integers, in
//! thousandths, with the usual constants k1 = 1.2 and b = 0.75 and the
//! plain ratio of chunks to matching chunks as inverse document frequency.

use vstd::prelude::*;

verus! {

/// A count as the score takes it: counts beyond the 32-bit range count as
/// the largest in it.
pub open spec fn cap32(n: int) -> int {
    if n > 0xffff_ffff {
        0xffff_ffff
    } else if n < 0 {
        0
    } else {
        n
    }
}

/// The inverse document frequency of a clause, in thousandths: the number
/// of chunks over the number of chunks that meet the clause.
pub open spec fn idf_milli(chunks: int, df: int) -> int {
    if cap32(df) == 0 {
        0
    } else {
        cap32(chunks) * 1000 / cap32(df)
    }
}

/// The denominator of the term-frequency part, scaled by ten times the
/// total token count: `tf + k1 * (1 - b + b * len / average_len)`.
pub open spec fn tf_den(tf: int, len: int, chunks: int, total: int) -> int {
    10 * (cap32(tf) * total) + 3 * total + 9 * (cap32(len) * cap32(chunks))
}

/// The term-frequency part, in thousandths:
/// `tf * (k1 + 1) / (tf + k1 * (1 - b + b * len / average_len))`.
pub open spec fn tf_milli(tf: int, len: int, chunks: int, total: int) -> int {
    if tf_den(tf, len, chunks, total) == 0 {
        0
    } else {
        22000 * (cap32(tf) * total) / tf_den(tf, len, chunks, total)
    }
}

/// The score that one clause adds to a chunk, in thousandths: `tf` is how
/// often the chunk meets the clause, `len` the chunk's token count,
/// `chunks` the number of chunks in the index, `total` their token count
/// in all and `df` the number of chunks that meet the clause.
pub open spec fn clause_score(tf: int, len: int, chunks: int, total: u64, df: int) -> int {
    idf_milli(chunks, df) * tf_milli(tf, len, chunks, total as int) / 1000
}

/// The bounds of the parts of a clause score: no product of them leaves
/// the 128-bit range, and the score fits into 64 bits.
pub proof fn lemma_clause_score_bounds(tf: int, len: int, chunks: int, total: u64, df: int)
    ensures
        0 <= cap32(tf) * total <= 0xffff_ffff * 0xffff_ffff_ffff_ffff,
        0 <= cap32(len) * cap32(chunks) <= 0xffff_ffff * 0xffff_ffff,
        0 <= tf_den(tf, len, chunks, total as int),
        0 <= idf_milli(chunks, df) <= 0xffff_ffff * 1000,
        0 <= tf_milli(tf, len, chunks, total as int) <= 2200,
        0 <= idf_milli(chunks, df) * tf_milli(tf, len, chunks, total as int) <= 0xffff_ffff * 1000
            * 2200,
        0 <= clause_score(tf, len, chunks, total, df) <= 0xffff_ffff * 2200,
{
    let t = cap32(tf);
    let l = cap32(len);
    let n = cap32(chunks);
    let d = cap32(df);
    let tot = total as int;
    assert(0 <= t * tot <= 0xffff_ffff * 0xffff_ffff_ffff_ffff) by (nonlinear_arith)
        requires
            0 <= t <= 0xffff_ffff,
            0 <= tot <= 0xffff_ffff_ffff_ffff,
    ;
    assert(0 <= l * n <= 0xffff_ffff * 0xffff_ffff) by (nonlinear_arith)
        requires
            0 <= l <= 0xffff_ffff,
            0 <= n <= 0xffff_ffff,
    ;
    let idf = idf_milli(chunks, df);
    if d > 0 {
        assert(0 <= (n * 1000) / d <= n * 1000) by (nonlinear_arith)
            requires
                0 <= n,
                d > 0,
        ;
    }
    let den = tf_den(tf, len, chunks, tot);
    let num = 22000 * (t * tot);
    let tfm = tf_milli(tf, len, chunks, tot);
    if den > 0 {
        assert(0 <= num / den <= 2200) by (nonlinear_arith)
            requires
                0 <= num <= 2200 * den,
                den > 0,
        ;
    }
    assert(0 <= idf * tfm <= 0xffff_ffff * 1000 * 2200) by (nonlinear_arith)
        requires
            0 <= idf <= 0xffff_ffff * 1000,
            0 <= tfm <= 2200,
    ;
}

/// A count as a 128-bit number, capped at the 32-bit range.
pub fn capped(n: usize) -> (r: u128)
    ensures
        r == cap32(n as int),
{
    if n > 0xffff_ffff {
        0xffff_ffff
    } else {
        n as u128
    }
}

/// Computes the score that one clause adds to a chunk.
pub fn score_clause(tf: usize, len: usize, chunks: usize, total: u64, df: usize) -> (s: u64)
    ensures
        s == clause_score(tf as int, len as int, chunks as int, total, df as int),
{
    proof {
        lemma_clause_score_bounds(tf as int, len as int, chunks as int, total, df as int);
    }
    let t = capped(tf);
    let l = capped(len);
    let n = capped(chunks);
    let d = capped(df);
    let tot: u128 = total as u128;
    let idf: u128 = if d == 0 {
        0
    } else {
        n * 1000 / d
    };
    let den: u128 = 10 * (t * tot) + 3 * tot + 9 * (l * n);
    let tfm: u128 = if den == 0 {
        0
    } else {
        22000 * (t * tot) / den
    };
    (idf * tfm / 1000) as u64
}

} // verus!
