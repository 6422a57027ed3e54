//! Lexicographic order on byte sequences, Lyndon words, and the facts about
//! periodic words that justify the incremental search: extending a word that
//! is a prefix of the infinite repetition of a Lyndon word by a byte strictly
//! larger than the byte its period predicts yields a Lyndon word again.

use vstd::prelude::*;

verus! {

/// Strict lexicographic order on byte sequences: `a` comes before `b` when
/// `a` is a proper prefix of `b`, or when `a` holds the smaller byte at the
/// first position where the two differ.
pub open spec fn lex_lt(a: Seq<u8>, b: Seq<u8>) -> bool
    decreases a.len(),
{
    if b.len() == 0 {
        false
    } else if a.len() == 0 {
        true
    } else if a[0] < b[0] {
        true
    } else if a[0] > b[0] {
        false
    } else {
        lex_lt(a.drop_first(), b.drop_first())
    }
}

/// The rotation of `w` that starts at index `k`.
pub open spec fn rotation(w: Seq<u8>, k: int) -> Seq<u8> {
    w.subrange(k, w.len() as int) + w.subrange(0, k)
}

/// A Lyndon word: non-empty, and strictly smaller than each of its proper
/// rotations.
pub open spec fn is_lyndon(w: Seq<u8>) -> bool {
    &&& w.len() >= 1
    &&& forall|k: int| 1 <= k < w.len() ==> lex_lt(w, rotation(w, k))
}

/// `w` has period `p` with a Lyndon word as its length-`p` prefix; that is,
/// `w` is a prefix of the infinite repetition of a Lyndon word of length `p`.
#[verifier::opaque]
pub open spec fn is_pre_lyndon(w: Seq<u8>, p: int) -> bool {
    &&& 1 <= p <= w.len()
    &&& is_lyndon(w.subrange(0, p))
    &&& forall|j: int| p <= j < w.len() ==> #[trigger] w[j] == w[j - p]
}

/// `a` and `b` agree strictly before index `d`, and `a` holds the smaller
/// byte at `d`.
pub open spec fn diff_at(a: Seq<u8>, b: Seq<u8>, d: int) -> bool {
    &&& 0 <= d < a.len()
    &&& d < b.len()
    &&& a[d] < b[d]
    &&& forall|i: int| 0 <= i < d ==> a[i] == b[i]
}

/// The infinite periodic extension of `u`, sampled at index `x`.
pub open spec fn stream(u: Seq<u8>, x: int) -> u8
    decreases x,
{
    if x < u.len() || u.len() == 0 {
        u[x]
    } else {
        stream(u, x - u.len() as int)
    }
}

/// A first strict difference is enough for the lexicographic order.
pub proof fn lemma_diff_at_implies_lex_lt(a: Seq<u8>, b: Seq<u8>, d: int)
    requires
        diff_at(a, b, d),
    ensures
        lex_lt(a, b),
    decreases d,
{
    if d > 0 {
        assert(diff_at(a.drop_first(), b.drop_first(), d - 1)) by {
            assert forall|i: int| 0 <= i < d - 1 implies a.drop_first()[i] == b.drop_first()[i] by {
                assert(a[i + 1] == b[i + 1]);
            }
        }
        lemma_diff_at_implies_lex_lt(a.drop_first(), b.drop_first(), d - 1);
    }
}

/// When `a` is at least as long as `b`, the lexicographic order can only come
/// from a first strict difference.
pub proof fn lemma_lex_lt_to_diff_at(a: Seq<u8>, b: Seq<u8>) -> (d: int)
    requires
        lex_lt(a, b),
        a.len() >= b.len(),
    ensures
        diff_at(a, b, d),
    decreases a.len(),
{
    if a[0] < b[0] {
        0
    } else {
        let d0 = lemma_lex_lt_to_diff_at(a.drop_first(), b.drop_first());
        assert forall|i: int| 0 <= i < d0 + 1 implies a[i] == b[i] by {
            if i > 0 {
                assert(a.drop_first()[i - 1] == b.drop_first()[i - 1]);
            }
        }
        assert(a[d0 + 1] == a.drop_first()[d0]);
        assert(b[d0 + 1] == b.drop_first()[d0]);
        d0 + 1
    }
}

/// Shifting the sampling index by a multiple of the period does not change
/// the sampled byte.
pub proof fn lemma_stream_shift(u: Seq<u8>, x: int, a: int)
    requires
        u.len() >= 1,
        0 <= x,
        0 <= a,
    ensures
        stream(u, x + a * u.len()) == stream(u, x),
    decreases a,
{
    let n = u.len() as int;
    if a == 0 {
        assert(a * n == 0) by (nonlinear_arith)
            requires
                a == 0,
        ;
        assert(x + a * n == x);
    } else {
        lemma_stream_shift(u, x, a - 1);
        let y = x + a * n;
        assert(a * n >= n && a * n - n == (a - 1) * n) by (nonlinear_arith)
            requires
                a >= 1,
                n >= 1,
        ;
        assert(y >= n);
        assert(stream(u, y) == stream(u, y - n));
        assert(y - n == x + (a - 1) * n);
        assert(stream(u, y - n) == stream(u, x + (a - 1) * n));
        assert(stream(u, x + (a - 1) * n) == stream(u, x));
    }
}

/// Every non-negative integer splits into a multiple of `p` and a remainder
/// below `p`.
pub proof fn lemma_decompose(k: int, p: int) -> (r: (int, int))
    requires
        0 <= k,
        1 <= p,
    ensures
        k == r.0 * p + r.1,
        0 <= r.1 < p,
        0 <= r.0,
    decreases k,
{
    if k < p {
        (0, k)
    } else {
        let (a0, m0) = lemma_decompose(k - p, p);
        assert((a0 + 1) * p == a0 * p + p) by (nonlinear_arith);
        (a0 + 1, m0)
    }
}

/// A `p`-periodic word agrees everywhere with the periodic extension of its
/// length-`p` prefix.
pub proof fn lemma_periodic_stream(w: Seq<u8>, p: int, i: int)
    requires
        1 <= p <= w.len(),
        forall|j: int| p <= j < w.len() ==> #[trigger] w[j] == w[j - p],
        0 <= i < w.len(),
    ensures
        w[i] == stream(w.subrange(0, p), i),
    decreases i,
{
    let u = w.subrange(0, p);
    if i < p {
        assert(u[i] == w[i]);
    } else {
        lemma_periodic_stream(w, p, i - p);
        assert(stream(u, i) == stream(u, i - p));
    }
}

/// A Lyndon word differs from each of its rotations, and at the first
/// difference the word itself holds the smaller byte. Stated over the
/// periodic extension of the word.
pub proof fn lemma_lyndon_rotation_diff(u: Seq<u8>, m: int) -> (d: int)
    requires
        is_lyndon(u),
        1 <= m < u.len(),
    ensures
        0 <= d < u.len(),
        forall|i: int| 0 <= i < d ==> u[i] == stream(u, i + m),
        u[d] < stream(u, d + m),
{
    let p = u.len() as int;
    let r = rotation(u, m);
    assert(lex_lt(u, r));
    assert(r.len() == p);
    let d = lemma_lex_lt_to_diff_at(u, r);
    assert forall|i: int| 0 <= i < p implies r[i] == stream(u, i + m) by {
        if i < p - m {
            assert(r[i] == u[m + i]);
        } else {
            assert(r[i] == u[i - (p - m)]);
            assert(stream(u, i + m) == stream(u, i + m - p));
        }
    }
    d
}

/// A word that is strictly below each of its proper suffixes is a Lyndon
/// word: no proper suffix can be a prefix of the word, so every comparison
/// against a rotation is settled by a strict difference inside the suffix.
pub proof fn lemma_suffixes_to_lyndon(w: Seq<u8>)
    requires
        w.len() >= 1,
        forall|k: int| 1 <= k < w.len() ==> lex_lt(w, w.subrange(k, w.len() as int)),
    ensures
        is_lyndon(w),
{
    let l = w.len() as int;
    assert forall|k: int| 1 <= k < l implies lex_lt(w, rotation(w, k)) by {
        let s = w.subrange(k, l);
        assert(lex_lt(w, s));
        let d = lemma_lex_lt_to_diff_at(w, s);
        assert(rotation(w, k)[d] == s[d]);
        assert forall|i: int| 0 <= i < d implies w[i] == rotation(w, k)[i] by {
            assert(rotation(w, k)[i] == s[i]);
        }
        assert(diff_at(w, rotation(w, k), d));
        lemma_diff_at_implies_lex_lt(w, rotation(w, k), d);
    }
}

/// Appending the byte that the period predicts keeps the word a prefix of
/// the infinite repetition of the same Lyndon word.
pub proof fn lemma_pre_lyndon_periodic_push(w: Seq<u8>, p: int, c: u8)
    requires
        is_pre_lyndon(w, p),
        p < w.len() + 1,
        c == w[w.len() - p],
    ensures
        is_pre_lyndon(w.push(c), p),
{
    reveal(is_pre_lyndon);
    let wp = w.push(c);
    assert(wp.subrange(0, p) =~= w.subrange(0, p));
    assert forall|j: int| p <= j < wp.len() implies #[trigger] wp[j] == wp[j - p] by {
        if j < w.len() {
            assert(w[j] == w[j - p]);
        }
    }
}

/// One suffix comparison for the extension lemma: the extended word is
/// strictly below its suffix starting at `k`.
#[verifier::rlimit(100)]
proof fn lemma_extend_one_suffix(w: Seq<u8>, p: int, c: u8, k: int)
    requires
        is_pre_lyndon(w, p),
        c > w[w.len() - p],
        1 <= k <= w.len(),
    ensures
        lex_lt(w.push(c), w.push(c).subrange(k, w.len() as int + 1)),
{
    reveal(is_pre_lyndon);
    let l = w.len() as int;
    let u = w.subrange(0, p);
    let wp = w.push(c);
    let s = wp.subrange(k, l + 1);
    let t = l - k;
    assert(s.len() == t + 1);
    assert(s[t] == c);
    assert forall|i: int| 0 <= i < l implies w[i] == stream(u, i) by {
        lemma_periodic_stream(w, p, i);
    }
    lemma_periodic_stream(w, p, l - p);
    assert(stream(u, l) == stream(u, l - p));
    assert(c > stream(u, l));
    let (a, m) = lemma_decompose(k, p);
    assert forall|i: int| 0 <= i implies #[trigger] stream(u, k + i) == stream(u, m + i) by {
        lemma_stream_shift(u, m + i, a);
        assert(m + i + a * p == k + i);
    }
    if m == 0 {
        assert forall|i: int| 0 <= i < t implies wp[i] == s[i] by {
            assert(s[i] == w[k + i]);
            assert(w[k + i] == stream(u, k + i));
            assert(stream(u, k + i) == stream(u, m + i));
            assert(stream(u, i) == w[i]);
        }
        assert(wp[t] == w[t]);
        assert(w[t] == stream(u, t));
        assert(stream(u, k + t) == stream(u, m + t));
        assert(k + t == l);
        assert(wp[t] < c);
        assert(diff_at(wp, s, t));
        lemma_diff_at_implies_lex_lt(wp, s, t);
    } else {
        let d = lemma_lyndon_rotation_diff(u, m);
        assert forall|i: int| 0 <= i < t && i < d implies wp[i] == s[i] by {
            assert(wp[i] == w[i]);
            assert(w[i] == stream(u, i));
            assert(stream(u, i) == u[i]);
            assert(u[i] == stream(u, i + m));
            assert(stream(u, m + i) == stream(u, k + i));
            assert(s[i] == w[k + i]);
            assert(w[k + i] == stream(u, k + i));
        }
        if d < t {
            assert(wp[d] == u[d]);
            assert(u[d] < stream(u, d + m));
            assert(stream(u, m + d) == stream(u, k + d));
            assert(s[d] == w[k + d]);
            assert(w[k + d] == stream(u, k + d));
            assert(diff_at(wp, s, d));
            lemma_diff_at_implies_lex_lt(wp, s, d);
        } else {
            assert(wp[t] == u[t]);
            assert(stream(u, m + t) == stream(u, k + t));
            assert(k + t == l);
            if t < d {
                assert(u[t] == stream(u, t + m));
                assert(wp[t] < c);
            } else {
                assert(t == d);
                assert(u[d] < stream(u, d + m));
                assert(wp[t] < c);
            }
            assert(diff_at(wp, s, t));
            lemma_diff_at_implies_lex_lt(wp, s, t);
        }
    }
}

/// The extension step of the search: a word that is a prefix of the infinite
/// repetition of a Lyndon word of length `p`, extended by a byte strictly
/// larger than the byte its period predicts, is itself a Lyndon word.
pub proof fn lemma_pre_lyndon_extend(w: Seq<u8>, p: int, c: u8)
    requires
        is_pre_lyndon(w, p),
        c > w[w.len() - p],
    ensures
        is_lyndon(w.push(c)),
{
    reveal(is_pre_lyndon);
    let wp = w.push(c);
    let l = w.len() as int;
    assert forall|k: int| 1 <= k < wp.len() implies lex_lt(wp, #[trigger] wp.subrange(k, l + 1)) by {
        lemma_extend_one_suffix(w, p, c, k);
    }
    lemma_suffixes_to_lyndon(wp);
}

} // verus!
