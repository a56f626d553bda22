//! The scanner: skip delimiters, gather one token, decode it.
use vstd::prelude::*;
use vstd::utf8::valid_utf8;
use crate::decode::{decode, trim_space, Error};
use crate::source::ByteSource;
use crate::token::{after_token, all_are, gap_len, is_delim, is_whitespace, lemma_run_len_covers,
    lemma_run_len_bounds, lemma_run_len_exact, next_token, run_len, word_len};

verus! {

/// Whether a limit is set and the next token of `s` is longer than it.
pub open spec fn over_limit(s: Seq<u8>, limit: Option<usize>) -> bool {
    limit matches Some(n) && word_len(s) > n
}

/// What one scan of `before` may end in, with `after` the source
/// afterwards and `r` the result.
///
/// - On an I/O failure, the source stands anywhere up to the end of the
///   next token.
/// - Over the limit, the delimiters and at most `limit` bytes of the token
///   are consumed: the chunks taken whole before the limit was crossed. The
///   chunk in which it was crossed is still buffered and unconsumed. A
///   source that held all its pending bytes in its buffer is left right at
///   the start of the token.
/// - Otherwise the delimiters and the whole token are consumed, and the
///   result is `Utf8` exactly when the (trimmed) token is not UTF-8; any
///   other result (a value, or `FromStr`) is what the type's parser said.
///   A source that held all its pending bytes in its buffer still does.
pub open spec fn scan_outcome<S: ByteSource, F>(
    before: S,
    limit: Option<usize>,
    after: S,
    r: Result<F, Error>,
) -> bool {
    let p = before.pending();
    let whole = before.buffered() == p;
    match r {
        Err(Error::Io(_)) => exists|k: int|
            0 <= k <= gap_len(p) + word_len(p) && after.pending() == #[trigger] p.skip(k),
        Err(Error::BufferLimitExceeded) => {
            &&& over_limit(p, limit)
            &&& exists|k: int|
                {
                    &&& gap_len(p) <= k <= gap_len(p) + limit->0
                    &&& after.pending() == #[trigger] p.skip(k)
                    &&& k - gap_len(p) + run_len(after.buffered(), false) > limit->0
                    &&& whole ==> k == gap_len(p)
                }
            &&& after.buffered().len() <= after.pending().len()
            &&& after.pending().take(after.buffered().len() as int) == after.buffered()
        },
        _ => {
            &&& !over_limit(p, limit)
            &&& after.pending() == after_token(p)
            &&& whole ==> after.buffered() == after.pending()
            &&& (r matches Err(Error::Utf8(_))) <==> !valid_utf8(trim_space(next_token(p)))
        },
    }
}

/// Handles one chunk of a source: measures the run of delimiters (`delim`)
/// or of token bytes (`!delim`) at its front and, when `collect` is set,
/// appends that run to `sink`. Returns the run's length, which is what the
/// source should consume, and whether the run ends in this chunk (the chunk
/// holds more after it, or the chunk is empty, so the source is exhausted).
///
/// Fails with `BufferLimitExceeded`, leaving `sink` as it was, exactly when
/// collecting the run would take `sink` past `limit`; nothing of the chunk
/// is then to be consumed.
#[verifier::loop_isolation(false)]
pub fn take_run(
    chunk: &[u8],
    delim: bool,
    sink: &mut Vec<u8>,
    collect: bool,
    limit: Option<usize>,
) -> (r: Result<(usize, bool), Error>)
    requires
        collect && limit is Some ==> old(sink)@.len() <= limit->0,
    ensures
        ({
            let n = run_len(chunk@, delim) as int;
            let exceeds = collect && limit is Some && old(sink)@.len() + n > limit->0;
            match r {
                Ok((m, done)) => {
                    &&& !exceeds
                    &&& m == n
                    &&& done == (n < chunk@.len() || chunk@.len() == 0)
                    &&& final(sink)@ == if collect {
                        old(sink)@ + chunk@.take(n)
                    } else {
                        old(sink)@
                    }
                },
                Err(e) => {
                    &&& exceeds
                    &&& e is BufferLimitExceeded
                    &&& final(sink)@ == old(sink)@
                },
            }
        }),
{
    let len = chunk.len();
    let mut n: usize = 0;
    while n < len && is_whitespace(chunk[n]) == delim
        invariant
            n <= len,
            len == chunk@.len(),
            all_are(chunk@.take(n as int), delim),
        decreases len - n,
    {
        proof {
            assert(chunk@.take(n + 1).drop_last() =~= chunk@.take(n as int));
        }
        n = n + 1;
    }
    proof {
        lemma_run_len_exact(chunk@, delim, n as int);
    }
    if collect {
        if let Some(lim) = limit {
            if n > lim - sink.len() {
                return Err(Error::BufferLimitExceeded);
            }
        }
        let ghost s0 = sink@;
        let mut i: usize = 0;
        while i < n
            invariant
                i <= n,
                sink@ == s0 + chunk@.take(i as int),
            decreases n - i,
        {
            sink.push(chunk[i]);
            proof {
                assert(chunk@.take(i + 1) =~= chunk@.take(i as int).push(chunk@[i as int]));
            }
            i = i + 1;
        }
    }
    Ok((n, n < len || len == 0))
}

/// Consumes the run of delimiters (`delim`) or of token bytes (`!delim`) at
/// the front of `reader`, appending it to `sink` when `collect` is set, and
/// failing as soon as `sink` would outgrow `limit`.
#[verifier::loop_isolation(false)]
#[verifier::rlimit(40)]
fn act_while<S: ByteSource>(
    reader: &mut S,
    delim: bool,
    sink: &mut Vec<u8>,
    collect: bool,
    limit: Option<usize>,
) -> (r: Result<(), Error>)
    requires
        collect && limit is Some ==> old(sink)@.len() <= limit->0,
    ensures
        final(reader).infallible() == old(reader).infallible(),
        ({
            let p = old(reader).pending();
            let run = run_len(p, delim);
            let exceeds = collect && limit is Some && old(sink)@.len() + run > limit->0;
            let whole = old(reader).buffered() == p;
            let chunk = final(reader).buffered();
            match r {
                Ok(_) => {
                    &&& !exceeds
                    &&& whole ==> final(reader).buffered() == final(reader).pending()
                    &&& final(reader).pending() == p.skip(run as int)
                    &&& final(sink)@ == if collect {
                        old(sink)@ + p.take(run as int)
                    } else {
                        old(sink)@
                    }
                },
                Err(Error::Io(_)) => {
                    &&& !old(reader).infallible()
                    &&& exists|k: int| 0 <= k <= run && final(reader).pending() == #[trigger] p.skip(k)
                },
                Err(Error::BufferLimitExceeded) => {
                    &&& exceeds
                    &&& exists|k: int|
                        {
                            &&& 0 <= k <= run
                            &&& old(sink)@.len() + k <= limit->0
                            &&& final(reader).pending() == #[trigger] p.skip(k)
                            &&& old(sink)@.len() + k + run_len(chunk, delim) > limit->0
                            &&& whole ==> k == 0
                        }
                    &&& chunk.len() <= final(reader).pending().len()
                    &&& final(reader).pending().take(chunk.len() as int) == chunk
                },
                Err(_) => false,
            }
        }),
{
    let ghost p = reader.pending();
    let ghost s0 = sink@;
    let ghost mut c: int = 0;
    proof {
        assert(p.skip(0) =~= p);
        assert(s0 + p.take(0) =~= s0);
    }
    loop
        invariant
            0 <= c <= p.len(),
            all_are(p.take(c), delim),
            reader.pending() == p.skip(c),
            reader.infallible() == old(reader).infallible(),
            collect ==> sink@ == s0 + p.take(c),
            !collect ==> sink@ == s0,
            collect && limit is Some ==> sink@.len() <= limit->0,
            old(reader).buffered() == p ==> reader.buffered() == reader.pending(),
            old(reader).buffered() == p ==> c == 0 || reader.pending().len() == 0,
        decreases reader.pending().len(),
    {
        let chunk = match reader.fill_buf() {
            Ok(chunk) => chunk,
            Err(e) => {
                proof {
                    lemma_run_len_covers(p, delim, c);
                }
                return Err(Error::Io(e));
            },
        };
        let len = chunk.len();
        let (n, done) = match take_run(chunk, delim, sink, collect, limit) {
            Ok(taken) => taken,
            Err(e) => {
                proof {
                    lemma_run_len_bounds(chunk@, delim);
                    let m = run_len(chunk@, delim) as int;
                    assert forall|i: int| 0 <= i < c + m implies is_delim(
                        #[trigger] p.take(c + m)[i],
                    ) == delim by {
                        if i < c {
                            assert(p.take(c)[i] == p[i]);
                        } else {
                            assert(chunk@.take(m)[i - c] == chunk@[i - c]);
                            assert(p.skip(c).take(len as int)[i - c] == p[i]);
                        }
                    }
                    lemma_run_len_covers(p, delim, c + m);
                }
                return Err(e);
            },
        };
        proof {
            lemma_run_len_bounds(chunk@, delim);
            assert forall|i: int| 0 <= i < c + n implies is_delim(#[trigger] p.take(c + n)[i]) == delim by {
                if i < c {
                    assert(p.take(c)[i] == p[i]);
                } else {
                    assert(chunk@.take(n as int)[i - c] == chunk@[i - c]);
                    assert(p.skip(c).take(len as int)[i - c] == p[i]);
                }
            }
            if collect {
                assert forall|j: int| 0 <= j < n implies chunk@.take(n as int)[j] == p.take(c + n)[c + j] by {
                    assert(p.skip(c).take(len as int)[j] == p[c + j]);
                }
                assert(p.take(c) + chunk@.take(n as int) =~= p.take(c + n));
            }
        }
        reader.consume(n);
        proof {
            assert(p.skip(c).skip(n as int) =~= p.skip(c + n));
            c = c + n;
        }
        if done {
            proof {
                if n < len {
                    assert(p.skip(c - n).take(len as int)[n as int] == p[c]);
                }
                lemma_run_len_exact(p, delim, c);
            }
            break;
        }
    }
    Ok(())
}

/// A token scanner wrapped around a buffered byte source.
///
/// It owns the source and one accumulator that is cleared at the start of
/// every scan, so no bytes of a previous token ever reach the next one. Its
/// model as a source is the wrapped source's model.
pub struct InputStream<T: ByteSource> {
    reader: T,
    byte_buffer: Vec<u8>,
}

impl<T: ByteSource> InputStream<T> {
    /// The wrapped source.
    pub closed spec fn inner(&self) -> T {
        self.reader
    }

    /// Wraps `reader`.
    pub fn new(reader: T) -> (r: InputStream<T>)
        ensures
            r.inner() == reader,
    {
        InputStream { reader, byte_buffer: Vec::new() }
    }

    /// Unwraps the source, positioned after the last scanned token.
    pub fn into_inner(self) -> (r: T)
        ensures
            r == self.inner(),
    {
        self.reader
    }

    /// Scans the next whitespace-delimited token and parses it as `F`.
    pub fn scan<F: std::str::FromStr>(&mut self) -> (r: Result<F, Error>)
        ensures
            final(self).infallible() == old(self).infallible(),
            old(self).infallible() ==> !(r matches Err(Error::Io(_))),
            scan_outcome(*old(self), None, *final(self), r),
    {
        self.inner_scan(None)
    }

    /// Like `scan`, but fails with `BufferLimitExceeded` when the token is
    /// longer than `limit` bytes.
    pub fn scan_with_limit<F: std::str::FromStr>(&mut self, limit: usize) -> (r: Result<F, Error>)
        ensures
            final(self).infallible() == old(self).infallible(),
            old(self).infallible() ==> !(r matches Err(Error::Io(_))),
            scan_outcome(*old(self), Some(limit), *final(self), r),
    {
        self.inner_scan(Some(limit))
    }

    /// Copies the next bytes of the source into `buf`, as many as fit and as
    /// one chunk holds, and consumes them. `Ok(0)` comes only for an empty
    /// `buf` or a source with nothing pending.
    pub fn read(&mut self, buf: &mut [u8]) -> (r: Result<usize, std::io::Error>)
        ensures
            final(buf)@.len() == old(buf)@.len(),
            final(self).infallible() == old(self).infallible(),
            old(self).infallible() ==> r is Ok,
            match r {
                Ok(n) => {
                    &&& n <= old(buf)@.len()
                    &&& n <= old(self).pending().len()
                    &&& final(buf)@.take(n as int) == old(self).pending().take(n as int)
                    &&& final(buf)@.skip(n as int) == old(buf)@.skip(n as int)
                    &&& final(self).pending() == old(self).pending().skip(n as int)
                    &&& (n == 0 ==> old(buf)@.len() == 0 || old(self).pending().len() == 0)
                    &&& old(self).buffered().len() > 0 ==> (n == old(buf)@.len()
                        || n == old(self).buffered().len())
                },
                Err(_) => {
                    &&& final(buf)@ == old(buf)@
                    &&& final(self).pending() == old(self).pending()
                },
            },
    {
        let chunk = match self.reader.fill_buf() {
            Ok(chunk) => chunk,
            Err(e) => {
                return Err(e);
            },
        };
        let n: usize = if chunk.len() < buf.len() {
            chunk.len()
        } else {
            buf.len()
        };
        let mut i: usize = 0;
        while i < n
            invariant
                i <= n,
                n <= chunk@.len(),
                n <= buf@.len(),
                buf@.len() == old(buf)@.len(),
                forall|j: int| 0 <= j < i ==> buf@[j] == chunk@[j],
                forall|j: int| i <= j < buf@.len() ==> buf@[j] == old(buf)@[j],
            decreases n - i,
        {
            buf[i] = chunk[i];
            i = i + 1;
        }
        self.reader.consume(n);
        proof {
            assert(buf@.take(n as int) =~= old(self).pending().take(n as int)) by {
                assert(chunk@.take(n as int) =~= old(self).pending().take(chunk@.len() as int).take(
                    n as int,
                ));
            }
            assert(buf@.skip(n as int) =~= old(buf)@.skip(n as int));
        }
        Ok(n)
    }

    fn inner_scan<F: std::str::FromStr>(&mut self, limit: Option<usize>) -> (r: Result<F, Error>)
        ensures
            final(self).infallible() == old(self).infallible(),
            old(self).infallible() ==> !(r matches Err(Error::Io(_))),
            scan_outcome(*old(self), limit, *final(self), r),
    {
        let ghost before = *self;
        let ghost p = self.reader.pending();
        let ghost whole = self.reader.buffered() == p;
        // the delimiters are skipped, not kept
        let mut discard: Vec<u8> = Vec::new();
        match act_while(&mut self.reader, true, &mut discard, false, None) {
            Ok(_) => {},
            Err(e) => {
                proof {
                    lemma_run_len_bounds(p, true);
                    lemma_run_len_bounds(p.skip(gap_len(p) as int), false);
                    assert(e is Io);
                    let k = choose|k: int|
                        0 <= k <= run_len(p, true) && self.reader.pending() == #[trigger] p.skip(k);
                    assert(self.pending() == p.skip(k));
                    assert(before.pending() == p);
                    assert(scan_outcome(before, limit, *self, Err::<F, Error>(e)));
                }
                return Err(e);
            },
        }
        let ghost q = self.reader.pending();
        proof {
            assert(q == p.skip(gap_len(p) as int));
            assert(whole ==> self.reader.buffered() == q);
            lemma_run_len_bounds(p, true);
            lemma_run_len_bounds(q, false);
            assert(word_len(p) == run_len(q, false));
        }
        self.byte_buffer.clear();
        match act_while(&mut self.reader, false, &mut self.byte_buffer, true, limit) {
            Ok(_) => {},
            Err(e) => {
                proof {
                    lemma_run_len_bounds(p, true);
                    lemma_run_len_bounds(q, false);
                    if e is Io {
                        let k = choose|k: int|
                            0 <= k <= run_len(q, false) && self.reader.pending() == #[trigger] q.skip(k);
                        assert(q.skip(k) =~= p.skip(gap_len(p) + k));
                        assert(self.pending() == p.skip(gap_len(p) + k));
                        assert(before.pending() == p);
                        assert(gap_len(p) + k <= gap_len(p) + word_len(p));
                        assert(scan_outcome(before, limit, *self, Err::<F, Error>(e)));
                    } else {
                        let chunk = self.reader.buffered();
                        let k = choose|k: int|
                            {
                                &&& 0 <= k <= run_len(q, false)
                                &&& 0 + k <= limit->0
                                &&& self.reader.pending() == #[trigger] q.skip(k)
                                &&& 0 + k + run_len(chunk, false) > limit->0
                                &&& whole ==> k == 0
                            };
                        assert(q.skip(k) =~= p.skip(gap_len(p) + k));
                        let kk = gap_len(p) + k;
                        assert(kk - gap_len(p) + run_len(chunk, false) > limit->0);
                        assert(over_limit(p, limit));
                        assert(self.pending() == p.skip(kk));
                        assert(self.buffered() == chunk);
                        assert(gap_len(p) <= kk <= gap_len(p) + limit->0);
                        assert(whole ==> kk == gap_len(p));
                        assert(chunk.len() <= self.pending().len());
                        assert(self.pending().take(chunk.len() as int) == chunk);
                        assert(before.pending() == p);
                        assert(before.buffered() == p <==> whole);
                        assert(scan_outcome(before, limit, *self, Err::<F, Error>(e)));
                    }
                    assert(scan_outcome(before, limit, *self, Err::<F, Error>(e)));
                }
                return Err(e);
            },
        }
        proof {
            lemma_run_len_bounds(p, true);
            lemma_run_len_bounds(q, false);
            assert(self.byte_buffer@ =~= next_token(p));
            assert(self.reader.pending() =~= after_token(p));
            assert(whole ==> self.buffered() == self.pending());
        }
        let r = decode(self.byte_buffer.as_slice());
        proof {
            assert(scan_outcome(before, limit, *self, r));
        }
        r
    }
}

/// The scanner is itself a source: these hand through to the wrapped one.
impl<T: ByteSource> ByteSource for InputStream<T> {
    open spec fn pending(&self) -> Seq<u8> {
        self.inner().pending()
    }

    open spec fn buffered(&self) -> Seq<u8> {
        self.inner().buffered()
    }

    open spec fn infallible(&self) -> bool {
        self.inner().infallible()
    }

    fn fill_buf(&mut self) -> (r: Result<&[u8], std::io::Error>) {
        self.reader.fill_buf()
    }

    fn consume(&mut self, n: usize) {
        self.reader.consume(n)
    }
}

} // verus!
