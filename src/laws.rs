//! Properties of the token model that hold across several scans.
use vstd::prelude::*;
use crate::decode::trim_space;
use crate::token::{after_token, all_are, gap_len, is_delim, lemma_run_len_bounds,
    lemma_run_len_exact, next_token, run_len, tokens, word_len};

verus! {

/// The bytes `seps[0] + toks[0] + seps[1] + ... + toks[n - 1] + seps[n]`,
/// where `n` is the number of tokens.
pub open spec fn joined(toks: Seq<Seq<u8>>, seps: Seq<Seq<u8>>) -> Seq<u8>
    decreases toks.len(),
{
    if toks.len() == 0 {
        seps[0]
    } else {
        seps[0] + toks[0] + joined(toks.drop_first(), seps.drop_first())
    }
}

/// Whether `toks` and `seps` describe a well-separated input: every token is
/// a non-empty run of token bytes, every separator is made of delimiters,
/// and the separators between two tokens are not empty.
pub open spec fn separated(toks: Seq<Seq<u8>>, seps: Seq<Seq<u8>>) -> bool {
    &&& seps.len() == toks.len() + 1
    &&& forall|i: int| 0 <= i < toks.len() ==> #[trigger] toks[i].len() > 0
    &&& forall|i: int| 0 <= i < toks.len() ==> all_are(#[trigger] toks[i], false)
    &&& forall|i: int| 0 <= i < seps.len() ==> all_are(#[trigger] seps[i], true)
    &&& forall|i: int| 0 < i < toks.len() ==> #[trigger] seps[i].len() > 0
}

/// A run of one class is shortened by exactly what is skipped of it.
pub proof fn lemma_run_len_skip(s: Seq<u8>, delim: bool, k: int)
    requires
        0 <= k <= run_len(s, delim),
    ensures
        run_len(s.skip(k), delim) == run_len(s, delim) - k,
{
    lemma_run_len_bounds(s, delim);
    let r = run_len(s, delim) as int;
    let t = s.skip(k);
    assert forall|i: int| 0 <= i < r - k implies is_delim(#[trigger] t.take(r - k)[i]) == delim by {
        assert(s.take(r)[i + k] == t.take(r - k)[i]);
    }
    if r < s.len() {
        assert(t[r - k] == s[r]);
    }
    lemma_run_len_exact(t, delim, r - k);
}

/// Input made of tokens and delimiter runs scans back into exactly those
/// tokens, in order, with no delimiter in any of them.
pub proof fn lemma_tokens_of_joined(toks: Seq<Seq<u8>>, seps: Seq<Seq<u8>>)
    requires
        separated(toks, seps),
    ensures
        tokens(joined(toks, seps)) == toks,
    decreases toks.len(),
{
    let s = joined(toks, seps);
    let s0 = seps[0];
    if toks.len() == 0 {
        assert(all_are(s0, true));
        assert(s0.take(s0.len() as int) =~= s0);
        lemma_run_len_exact(s, true, s.len() as int);
        assert(s.skip(s.len() as int) =~= Seq::<u8>::empty());
        assert(word_len(s) == 0);
        assert(tokens(s) =~= toks);
    } else {
        let t0 = toks[0];
        let rt = toks.drop_first();
        let rs = seps.drop_first();
        assert(separated(rt, rs)) by {
            assert forall|i: int| 0 <= i < rt.len() implies #[trigger] rt[i].len() > 0 by {
                assert(rt[i] == toks[i + 1]);
            }
            assert forall|i: int| 0 <= i < rt.len() implies all_are(#[trigger] rt[i], false) by {
                assert(rt[i] == toks[i + 1]);
            }
            assert forall|i: int| 0 <= i < rs.len() implies all_are(#[trigger] rs[i], true) by {
                assert(rs[i] == seps[i + 1]);
            }
            assert forall|i: int| 0 < i < rt.len() implies #[trigger] rs[i].len() > 0 by {
                assert(rs[i] == seps[i + 1]);
            }
        }
        let rest = joined(rt, rs);
        lemma_tokens_of_joined(rt, rs);
        // what follows the first token starts with a delimiter, if anything
        assert(rest.len() > 0 ==> is_delim(rest[0])) by {
            if rt.len() == 0 {
                assert(all_are(rs[0], true));
            } else {
                assert(rs[0].len() > 0);
                assert(all_are(rs[0], true));
                assert(rest[0] == rs[0][0]);
            }
        }
        assert(s == s0 + t0 + rest);
        let g = s0.len() as int;
        assert(all_are(toks[0], false));
        assert(all_are(seps[0], true));
        assert(t0.len() > 0);
        assert(all_are(s.take(g), true)) by {
            assert(s.take(g) =~= s0);
        }
        assert(s[g] == t0[0]);
        lemma_run_len_exact(s, true, g);
        let q = s.skip(g);
        assert(q =~= t0 + rest);
        let w = t0.len() as int;
        assert(all_are(q.take(w), false)) by {
            assert(q.take(w) =~= t0);
        }
        if w < q.len() {
            assert(q[w] == rest[0]);
        }
        lemma_run_len_exact(q, false, w);
        assert(next_token(s) =~= t0);
        assert(after_token(s) =~= rest);
        assert(tokens(s) =~= toks);
    }
}

/// A token never ends with a space, so the trailing-space trim leaves every
/// scanned token as it is.
pub proof fn lemma_token_untrimmed(s: Seq<u8>)
    ensures
        trim_space(next_token(s)) == next_token(s),
{
    lemma_run_len_bounds(s, true);
    let q = s.skip(gap_len(s) as int);
    lemma_run_len_bounds(q, false);
    let t = next_token(s);
    if t.len() > 0 {
        assert(t =~= q.take(word_len(s) as int));
        assert(!is_delim(t[t.len() - 1]));
    }
}

/// However far a failed scan got into the token it was reading (any `k` up
/// to the token's end), the tokens still to come end with all the tokens
/// that followed it, unchanged and in order; at most one token, the unread
/// part of the failed one, comes before them.
pub proof fn lemma_resume_after_failure(s: Seq<u8>, k: int)
    requires
        0 <= k <= gap_len(s) + word_len(s),
    ensures
        ({
            let now = tokens(s.skip(k));
            let later = tokens(after_token(s));
            &&& later.len() <= now.len() <= later.len() + 1
            &&& now.skip(now.len() - later.len()) == later
        }),
{
    lemma_run_len_bounds(s, true);
    let g = gap_len(s) as int;
    let q = s.skip(g);
    lemma_run_len_bounds(q, false);
    let w = word_len(s) as int;
    let t = s.skip(k);
    let later = tokens(after_token(s));
    if k <= g {
        lemma_run_len_skip(s, true, k);
        assert(t.skip(g - k) =~= q);
        assert(next_token(t) =~= next_token(s));
        assert(after_token(t) =~= after_token(s));
        assert(tokens(t) == tokens(s));
        if w == 0 {
            assert(tokens(s) =~= later.skip(0));
        } else {
            assert(tokens(s).skip(1) =~= later);
        }
    } else if k < g + w {
        assert(q.take(w)[k - g] == t[0]);
        assert(t.take(0) =~= Seq::<u8>::empty());
        lemma_run_len_exact(t, true, 0);
        assert(t.skip(0) =~= q.skip(k - g));
        lemma_run_len_skip(q, false, k - g);
        assert(after_token(t) =~= after_token(s));
        assert(tokens(t).skip(1) =~= later);
    } else {
        assert(t =~= after_token(s));
        assert(tokens(t).skip(0) =~= later);
    }
}

/// Whether `a` and `b` differ only at places where both hold a delimiter.
pub open spec fn same_but_delims(a: Seq<u8>, b: Seq<u8>) -> bool {
    &&& a.len() == b.len()
    &&& forall|i: int|
        0 <= i < a.len() ==> a[i] == b[i] || (is_delim(#[trigger] a[i]) && is_delim(b[i]))
}

/// Runs of one class have the same length in two inputs that differ only
/// in which delimiters they hold.
pub proof fn lemma_run_len_same_but_delims(a: Seq<u8>, b: Seq<u8>, delim: bool)
    requires
        same_but_delims(a, b),
    ensures
        run_len(a, delim) == run_len(b, delim),
    decreases a.len(),
{
    if a.len() > 0 {
        assert(is_delim(a[0]) == is_delim(b[0]));
        assert forall|i: int| 0 <= i < a.drop_first().len() implies a.drop_first()[i]
            == b.drop_first()[i] || (is_delim(#[trigger] a.drop_first()[i]) && is_delim(
            b.drop_first()[i],
        )) by {
            assert(a.drop_first()[i] == a[i + 1]);
            assert(b.drop_first()[i] == b[i + 1]);
        }
        lemma_run_len_same_but_delims(a.drop_first(), b.drop_first(), delim);
    }
}

/// Which delimiter separates tokens makes no difference: a line feed, a tab
/// or any other delimiter byte acts exactly as a space does. Two inputs
/// that differ only in their delimiters have the same tokens, and each scan
/// consumes as many bytes of one as of the other.
pub proof fn lemma_delimiters_interchangeable(a: Seq<u8>, b: Seq<u8>)
    requires
        same_but_delims(a, b),
    ensures
        gap_len(a) == gap_len(b),
        word_len(a) == word_len(b),
        next_token(a) == next_token(b),
        same_but_delims(after_token(a), after_token(b)),
        tokens(a) == tokens(b),
    decreases a.len(),
{
    lemma_run_len_same_but_delims(a, b, true);
    let g = gap_len(a) as int;
    lemma_run_len_bounds(a, true);
    let qa = a.skip(g);
    let qb = b.skip(g);
    assert forall|i: int| 0 <= i < qa.len() implies qa[i] == qb[i] || (is_delim(
        #[trigger] qa[i],
    ) && is_delim(qb[i])) by {
        assert(qa[i] == a[i + g]);
        assert(qb[i] == b[i + g]);
    }
    lemma_run_len_same_but_delims(qa, qb, false);
    lemma_run_len_bounds(qa, false);
    let w = word_len(a) as int;
    assert forall|i: int| 0 <= i < w implies qa[i] == qb[i] by {
        assert(qa.take(w)[i] == qa[i]);
    }
    assert(next_token(a) =~= next_token(b)) by {
        assert forall|i: int| 0 <= i < w implies next_token(a)[i] == next_token(b)[i] by {
            assert(next_token(a)[i] == qa[i]);
            assert(next_token(b)[i] == qb[i]);
        }
    }
    let ra = after_token(a);
    let rb = after_token(b);
    assert forall|i: int| 0 <= i < ra.len() implies ra[i] == rb[i] || (is_delim(
        #[trigger] ra[i],
    ) && is_delim(rb[i])) by {
        assert(ra[i] == a[i + g + w]);
        assert(rb[i] == b[i + g + w]);
    }
    if w > 0 {
        lemma_delimiters_interchangeable(ra, rb);
    }
}

} // verus!
