//! The two capabilities the pipeline is driven by: a producer that fills a
//! prefix of a buffer, and a consumer that takes a prefix of a buffer.
//!
//! Both carry a mathematical view that the pipeline's contract is stated
//! over: the bytes still to come and the chunks handed out so far on the
//! producer's side, the chunks accepted so far on the consumer's side, a
//! count of calls answered on each side, and a predicate saying whether the
//! capability can fail at all.

use vstd::prelude::*;

verus! {

/// The chunks a history gained over an earlier state of itself.
pub open spec fn new_chunks(pre: Seq<Seq<u8>>, post: Seq<Seq<u8>>) -> Seq<Seq<u8>> {
    post.skip(pre.len() as int)
}

/// A producer of bytes with a shared error type `E`.
///
/// `remaining()` is the sequence of bytes the producer still has to hand out,
/// `produced()` the chunks its nonzero reads handed out so far, in order, and
/// `reads()` how many read calls it has answered. A successful read copies a
/// prefix of `remaining()` into the front of `buf` and reports its length; a
/// report of `0` on a non-empty buffer signals exhaustion. A short read
/// (fewer bytes than the buffer holds) is an ordinary outcome, not an error.
/// Where `never_fails()` holds, every read returns `Ok`.
pub trait Source<E> {
    /// The bytes this producer has not yet handed out.
    spec fn remaining(&self) -> Seq<u8>;

    /// The chunks handed out by the nonzero reads so far, in order.
    spec fn produced(&self) -> Seq<Seq<u8>>;

    /// How many read calls this producer has answered.
    spec fn reads(&self) -> nat;

    /// Whether this producer is incapable of failing.
    spec fn never_fails(&self) -> bool;

    /// Fill a prefix of `buf` with the next bytes of the stream and report how
    /// many were placed there. The buffer keeps its length; bytes past the
    /// reported count are scratch space with no promised contents. A failed
    /// read consumes nothing.
    fn read(&mut self, buf: &mut Vec<u8>) -> (r: Result<usize, E>)
        ensures
            final(buf)@.len() == old(buf)@.len(),
            final(self).reads() == old(self).reads() + 1,
            final(self).never_fails() == old(self).never_fails(),
            old(self).never_fails() ==> r is Ok,
            match r {
                Ok(n) => {
                    &&& n <= old(buf)@.len()
                    &&& n <= old(self).remaining().len()
                    &&& final(self).remaining() == old(self).remaining().skip(n as int)
                    &&& final(buf)@.subrange(0, n as int) == old(self).remaining().subrange(
                        0,
                        n as int,
                    )
                    &&& (old(buf)@.len() > 0 && old(self).remaining().len() > 0 ==> n > 0)
                    &&& (n > 0 ==> final(self).produced() == old(self).produced().push(
                        old(self).remaining().subrange(0, n as int),
                    ))
                    &&& (n == 0 ==> final(self).produced() == old(self).produced())
                },
                Err(_) => {
                    &&& final(self).remaining() == old(self).remaining()
                    &&& final(self).produced() == old(self).produced()
                },
            },
    ;
}

/// A consumer of bytes with a shared error type `E`.
///
/// `accepted()` is the sequence of chunks this consumer has taken so far, in
/// order, and `writes()` how many write calls it has answered. A successful
/// write consumes the first `len` bytes of `data` entirely; a failed write
/// consumes nothing. Where `never_fails()` holds, every write returns `Ok`.
pub trait Sink<E> {
    /// The chunks this consumer has accepted so far, in order.
    spec fn accepted(&self) -> Seq<Seq<u8>>;

    /// How many write calls this consumer has answered.
    spec fn writes(&self) -> nat;

    /// Whether this consumer is incapable of failing.
    spec fn never_fails(&self) -> bool;

    /// Consume the first `len` bytes of `data` as one chunk, or fail having
    /// consumed nothing.
    fn write(&mut self, data: &Vec<u8>, len: usize) -> (r: Result<(), E>)
        requires
            len <= data@.len(),
        ensures
            final(self).writes() == old(self).writes() + 1,
            final(self).never_fails() == old(self).never_fails(),
            old(self).never_fails() ==> r is Ok,
            r is Ok ==> final(self).accepted() == old(self).accepted().push(
                data@.subrange(0, len as int),
            ),
            r is Err ==> final(self).accepted() == old(self).accepted(),
    ;
}

} // verus!
