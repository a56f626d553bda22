//! The capability the scanner needs from where its bytes come from: look at
//! the next buffered chunk, then mark a prefix of it as consumed.
use vstd::prelude::*;

verus! {

#[verifier::external_type_specification]
#[verifier::external_body]
pub struct ExIoError(std::io::Error);

/// A buffered source of bytes.
///
/// Its model is the sequence of bytes it has still to deliver (`pending`) and
/// the chunk it holds at the moment (`buffered`), which is always a prefix of
/// what is pending. A transient interruption is retried inside `fill_buf`; an
/// `Err` is a real failure of the source.
pub trait ByteSource {
    /// The bytes not yet consumed, in the order the source delivers them.
    spec fn pending(&self) -> Seq<u8>;

    /// The chunk handed out by the latest `fill_buf`, minus what was consumed
    /// of it since.
    spec fn buffered(&self) -> Seq<u8>;

    /// Whether the source can never report a failure (an in-memory source).
    spec fn infallible(&self) -> bool;

    /// Returns the next chunk without consuming it. The chunk is empty only
    /// when nothing is pending. While part of the last chunk is still
    /// buffered, that part is what comes back, and nothing is read.
    fn fill_buf(&mut self) -> (r: Result<&[u8], std::io::Error>)
        ensures
            final(self).pending() == old(self).pending(),
            final(self).infallible() == old(self).infallible(),
            old(self).infallible() ==> r is Ok,
            old(self).buffered().len() > 0 ==> r is Ok && r->Ok_0@ == old(self).buffered(),
            r is Ok ==> {
                let chunk = r->Ok_0@;
                &&& final(self).buffered() == chunk
                &&& chunk.len() <= final(self).pending().len()
                &&& final(self).pending().take(chunk.len() as int) == chunk
                &&& (chunk.len() == 0 <==> final(self).pending().len() == 0)
            },
    ;

    /// Marks the first `n` bytes of the buffered chunk as consumed.
    fn consume(&mut self, n: usize)
        requires
            n <= old(self).buffered().len(),
        ensures
            final(self).pending() == old(self).pending().skip(n as int),
            final(self).buffered() == old(self).buffered().skip(n as int),
            final(self).infallible() == old(self).infallible(),
    ;
}

/// A byte slice is a source whose whole content is buffered from the start.
impl<'a> ByteSource for &'a [u8] {
    open spec fn pending(&self) -> Seq<u8> {
        self@
    }

    open spec fn buffered(&self) -> Seq<u8> {
        self@
    }

    open spec fn infallible(&self) -> bool {
        true
    }

    fn fill_buf(&mut self) -> (r: Result<&[u8], std::io::Error>) {
        let chunk: &[u8] = *self;
        proof {
            assert(chunk@.take(chunk@.len() as int) =~= chunk@);
        }
        Ok(chunk)
    }

    fn consume(&mut self, n: usize) {
        *self = vstd::slice::slice_subrange(*self, n, self.len());
        proof {
            assert(self@ =~= old(self)@.skip(n as int));
        }
    }
}

} // verus!
