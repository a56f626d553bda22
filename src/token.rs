//! What a token is: the byte classifier and the mathematical model of how a
//! byte sequence splits into tokens.
use vstd::prelude::*;

verus! {

/// Whether `c` separates tokens: the space and the control bytes 0x09 to 0x0D
/// (tab, line feed, vertical tab, form feed, carriage return).
pub open spec fn is_delim(c: u8) -> bool {
    c == 0x20u8 || (0x09u8 <= c && c <= 0x0du8)
}

/// Classifies one byte as a delimiter (`true`) or a token byte (`false`).
pub fn is_whitespace(c: u8) -> (r: bool)
    ensures
        r == is_delim(c),
{
    c == 0x20u8 || (0x09u8 <= c && c <= 0x0du8)
}

/// Length of the longest prefix of `s` whose bytes are all delimiters
/// (`delim == true`) or all token bytes (`delim == false`).
pub open spec fn run_len(s: Seq<u8>, delim: bool) -> nat
    decreases s.len(),
{
    if s.len() == 0 || is_delim(s[0]) != delim {
        0
    } else {
        1 + run_len(s.drop_first(), delim)
    }
}

/// Number of delimiter bytes before the next token.
pub open spec fn gap_len(s: Seq<u8>) -> nat {
    run_len(s, true)
}

/// Length of the next token.
pub open spec fn word_len(s: Seq<u8>) -> nat {
    run_len(s.skip(gap_len(s) as int), false)
}

/// The next token of `s`: the run of token bytes after the leading delimiters.
/// It is empty when `s` holds delimiters only.
pub open spec fn next_token(s: Seq<u8>) -> Seq<u8> {
    s.subrange(gap_len(s) as int, (gap_len(s) + word_len(s)) as int)
}

/// What remains of `s` once its next token has been taken.
pub open spec fn after_token(s: Seq<u8>) -> Seq<u8> {
    s.skip((gap_len(s) + word_len(s)) as int)
}

/// The tokens of `s`, in order, as repeated extraction yields them.
pub open spec fn tokens(s: Seq<u8>) -> Seq<Seq<u8>>
    decreases s.len(),
    via tokens_decreases
{
    if word_len(s) == 0 {
        seq![]
    } else {
        seq![next_token(s)] + tokens(after_token(s))
    }
}

#[via_fn]
proof fn tokens_decreases(s: Seq<u8>) {
    lemma_run_len_bounds(s, true);
    lemma_run_len_bounds(s.skip(gap_len(s) as int), false);
}

/// Whether every byte of `s` is a delimiter (`delim == true`) or every byte
/// is a token byte (`delim == false`).
pub open spec fn all_are(s: Seq<u8>, delim: bool) -> bool {
    forall|i: int| 0 <= i < s.len() ==> is_delim(#[trigger] s[i]) == delim
}

/// A run is never longer than the sequence, and every byte in it has the
/// run's class.
pub proof fn lemma_run_len_bounds(s: Seq<u8>, delim: bool)
    ensures
        run_len(s, delim) <= s.len(),
        all_are(s.take(run_len(s, delim) as int), delim),
        run_len(s, delim) < s.len() ==> is_delim(s[run_len(s, delim) as int]) != delim,
    decreases s.len(),
{
    if s.len() > 0 && is_delim(s[0]) == delim {
        lemma_run_len_bounds(s.drop_first(), delim);
        let k = run_len(s, delim) as int;
        assert forall|i: int| 0 <= i < k implies is_delim(#[trigger] s.take(k)[i]) == delim by {
            if i > 0 {
                assert(s.take(k)[i] == s.drop_first().take(k - 1)[i - 1]);
            }
        }
    }
}

/// A prefix whose bytes all have one class is no longer than the run.
pub proof fn lemma_run_len_covers(s: Seq<u8>, delim: bool, k: int)
    requires
        0 <= k <= s.len(),
        all_are(s.take(k), delim),
    ensures
        k <= run_len(s, delim),
    decreases s.len(),
{
    if k > 0 {
        assert(s.take(k)[0] == s[0]);
        assert(s.drop_first().take(k - 1) =~= s.take(k).drop_first());
        assert forall|i: int| 0 <= i < k - 1 implies is_delim(
            #[trigger] s.drop_first().take(k - 1)[i],
        ) == delim by {
            assert(s.take(k)[i + 1] == s.drop_first().take(k - 1)[i]);
        }
        lemma_run_len_covers(s.drop_first(), delim, k - 1);
    }
}

/// The run is exactly `k` long when the first `k` bytes have its class and
/// the byte after them, if any, does not.
pub proof fn lemma_run_len_exact(s: Seq<u8>, delim: bool, k: int)
    requires
        0 <= k <= s.len(),
        all_are(s.take(k), delim),
        k < s.len() ==> is_delim(s[k]) != delim,
    ensures
        run_len(s, delim) == k,
{
    lemma_run_len_covers(s, delim, k);
    lemma_run_len_bounds(s, delim);
    if run_len(s, delim) > k {
        assert(s.take(run_len(s, delim) as int)[k] == s[k]);
    }
}

} // verus!
