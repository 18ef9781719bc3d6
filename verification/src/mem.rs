//! In-memory producers and consumers: reference implementations of the two
//! pipeline capabilities, plus fault-injecting variants that fail on a chosen
//! call so the error paths of the pipeline can be exercised.

use vstd::pervasive::VecAdditionalExecFns;
use vstd::prelude::*;

use crate::stream::{Sink, Source};

verus! {

/// Copy into the front of `buf` as many bytes of `data` starting at `pos` as
/// fit, and report how many were copied. The buffer keeps its length.
fn fill_from(data: &Vec<u8>, pos: usize, buf: &mut Vec<u8>) -> (n: usize)
    ensures
        final(buf)@.len() == old(buf)@.len(),
        n <= old(buf)@.len(),
        pos <= data@.len() ==> n <= data@.len() - pos,
        pos > data@.len() ==> n == 0,
        pos <= data@.len() ==> final(buf)@.subrange(0, n as int) == data@.subrange(
            pos as int,
            pos + n,
        ),
        pos < data@.len() && old(buf)@.len() > 0 ==> n > 0,
{
    let avail: usize = if pos <= data.len() {
        data.len() - pos
    } else {
        0
    };
    let n: usize = if buf.len() < avail {
        buf.len()
    } else {
        avail
    };
    let ghost buf0 = buf@;
    let mut i: usize = 0;
    proof {
        if pos <= data@.len() {
            assert(buf@.subrange(0, 0) =~= data@.subrange(pos as int, pos as int));
        }
    }
    while i < n
        invariant
            i <= n,
            n <= buf@.len(),
            buf@.len() == buf0.len(),
            n > 0 ==> pos + n <= data@.len(),
            pos + n <= usize::MAX,
            pos <= data@.len() ==> buf@.subrange(0, i as int) == data@.subrange(pos as int, pos + i),
        decreases n - i,
    {
        let b: u8 = data[pos + i];
        buf.set(i, b);
        proof {
            assert(buf@.subrange(0, i + 1) =~= data@.subrange(pos as int, pos + i + 1));
        }
        i = i + 1;
    }
    n
}

/// Append the first `len` bytes of `data` to `out`.
fn append_prefix(out: &mut Vec<u8>, data: &Vec<u8>, len: usize)
    requires
        len <= data@.len(),
    ensures
        final(out)@ == old(out)@ + data@.subrange(0, len as int),
{
    let ghost out0 = out@;
    let mut i: usize = 0;
    proof {
        assert(out@ =~= out0 + data@.subrange(0, 0));
    }
    while i < len
        invariant
            i <= len,
            len <= data@.len(),
            out@ == out0 + data@.subrange(0, i as int),
        decreases len - i,
    {
        out.push(data[i]);
        proof {
            assert(out@ =~= out0 + data@.subrange(0, i + 1));
        }
        i = i + 1;
    }
}

/// A producer that hands out the bytes of a vector, front to back. It cannot
/// fail.
pub struct MemSource {
    /// The whole stream.
    pub data: Vec<u8>,
    /// How many of its bytes have been handed out already.
    pub pos: usize,
    /// How many read calls this producer has answered, saturating: a run-time
    /// observation beside the exact ghost count the contracts speak of.
    pub reads: usize,
    /// The chunks handed out by the nonzero reads so far, in order.
    pub chunks: Ghost<Seq<Seq<u8>>>,
    /// How many read calls this producer has answered.
    pub calls: Ghost<nat>,
}

impl MemSource {
    /// A producer positioned at the front of `data`.
    pub fn new(data: Vec<u8>) -> (s: MemSource)
        ensures
            s.remaining() == data@,
            s.produced() == Seq::<Seq<u8>>::empty(),
            s.reads() == 0,
            s.never_fails(),
            s.reads == 0,
    {
        MemSource { data, pos: 0, reads: 0, chunks: Ghost(Seq::empty()), calls: Ghost(0) }
    }
}

impl Source<u64> for MemSource {
    open spec fn remaining(&self) -> Seq<u8> {
        if self.pos <= self.data@.len() {
            self.data@.skip(self.pos as int)
        } else {
            Seq::empty()
        }
    }

    open spec fn produced(&self) -> Seq<Seq<u8>> {
        self.chunks@
    }

    open spec fn reads(&self) -> nat {
        self.calls@
    }

    open spec fn never_fails(&self) -> bool {
        true
    }

    fn read(&mut self, buf: &mut Vec<u8>) -> (r: Result<usize, u64>) {
        let ghost pos0: int = self.pos as int;
        let n = fill_from(&self.data, self.pos, buf);
        proof {
            assert(self.data.len() == self.data@.len());
        }
        self.pos = self.pos + n;
        if self.reads < usize::MAX {
            self.reads = self.reads + 1;
        }
        self.calls = Ghost(self.calls@ + 1);
        if n > 0 {
            self.chunks = Ghost(self.chunks@.push(self.data@.subrange(pos0, pos0 + n as int)));
        }
        proof {
            if pos0 <= self.data@.len() {
                assert(self.data@.skip(pos0 + n) =~= self.data@.skip(pos0).skip(n as int));
                assert(buf@.subrange(0, n as int) =~= self.data@.skip(pos0).subrange(0, n as int));
                assert(self.data@.subrange(pos0, pos0 + n) =~= self.data@.skip(pos0).subrange(
                    0,
                    n as int,
                ));
            } else {
                assert(Seq::<u8>::empty().skip(0) =~= Seq::<u8>::empty());
                assert(buf@.subrange(0, 0) =~= Seq::<u8>::empty().subrange(0, 0));
            }
        }
        Ok(n)
    }
}

/// A producer like [`MemSource`] that fails with `code` on its `fail_on`-th
/// read call, consuming nothing on the failing call. With `fail_on == 0` it
/// never fails.
pub struct FaultSource {
    /// The whole stream.
    pub data: Vec<u8>,
    /// How many of its bytes have been handed out already.
    pub pos: usize,
    /// How many read calls this producer has answered, saturating: a run-time
    /// observation beside the exact ghost count the contracts speak of.
    pub reads: usize,
    /// The 1-based index of the read call that fails; `0` never fails.
    pub fail_on: usize,
    /// The error reported by the failing call.
    pub code: u64,
    /// The chunks handed out by the nonzero reads so far, in order.
    pub chunks: Ghost<Seq<Seq<u8>>>,
    /// How many read calls this producer has answered.
    pub calls: Ghost<nat>,
}

impl FaultSource {
    /// A producer positioned at the front of `data` whose `fail_on`-th read
    /// call reports `code`.
    pub fn new(data: Vec<u8>, fail_on: usize, code: u64) -> (s: FaultSource)
        ensures
            s.remaining() == data@,
            s.produced() == Seq::<Seq<u8>>::empty(),
            s.reads() == 0,
            s.never_fails() == (fail_on == 0),
            s.reads == 0,
            s.fail_on == fail_on,
            s.code == code,
    {
        FaultSource {
            data,
            pos: 0,
            reads: 0,
            fail_on,
            code,
            chunks: Ghost(Seq::empty()),
            calls: Ghost(0),
        }
    }
}

impl Source<u64> for FaultSource {
    open spec fn remaining(&self) -> Seq<u8> {
        if self.pos <= self.data@.len() {
            self.data@.skip(self.pos as int)
        } else {
            Seq::empty()
        }
    }

    open spec fn produced(&self) -> Seq<Seq<u8>> {
        self.chunks@
    }

    open spec fn reads(&self) -> nat {
        self.calls@
    }

    open spec fn never_fails(&self) -> bool {
        self.fail_on == 0
    }

    fn read(&mut self, buf: &mut Vec<u8>) -> (r: Result<usize, u64>) {
        if self.reads < usize::MAX {
            self.reads = self.reads + 1;
        }
        self.calls = Ghost(self.calls@ + 1);
        if self.reads == self.fail_on {
            return Err(self.code);
        }
        let ghost pos0: int = self.pos as int;
        let n = fill_from(&self.data, self.pos, buf);
        proof {
            assert(self.data.len() == self.data@.len());
        }
        self.pos = self.pos + n;
        if n > 0 {
            self.chunks = Ghost(self.chunks@.push(self.data@.subrange(pos0, pos0 + n as int)));
        }
        proof {
            if pos0 <= self.data@.len() {
                assert(self.data@.skip(pos0 + n) =~= self.data@.skip(pos0).skip(n as int));
                assert(buf@.subrange(0, n as int) =~= self.data@.skip(pos0).subrange(0, n as int));
                assert(self.data@.subrange(pos0, pos0 + n) =~= self.data@.skip(pos0).subrange(
                    0,
                    n as int,
                ));
            } else {
                assert(Seq::<u8>::empty().skip(0) =~= Seq::<u8>::empty());
                assert(buf@.subrange(0, 0) =~= Seq::<u8>::empty().subrange(0, 0));
            }
        }
        Ok(n)
    }
}

/// A consumer that collects every byte it is handed. It cannot fail.
pub struct MemSink {
    /// Everything accepted so far, flattened, in order.
    pub out: Vec<u8>,
    /// How many write calls this consumer has answered, saturating: a run-time
    /// observation beside the exact ghost count the contracts speak of.
    pub writes: usize,
    /// The chunks accepted so far, in order.
    pub chunks: Ghost<Seq<Seq<u8>>>,
    /// How many write calls this consumer has answered.
    pub calls: Ghost<nat>,
}

impl MemSink {
    /// An empty consumer.
    pub fn new() -> (s: MemSink)
        ensures
            s.accepted() == Seq::<Seq<u8>>::empty(),
            s.writes() == 0,
            s.never_fails(),
            s.out@ == Seq::<u8>::empty(),
            s.writes == 0,
    {
        MemSink { out: Vec::new(), writes: 0, chunks: Ghost(Seq::empty()), calls: Ghost(0) }
    }
}

impl Sink<u64> for MemSink {
    open spec fn accepted(&self) -> Seq<Seq<u8>> {
        self.chunks@
    }

    open spec fn writes(&self) -> nat {
        self.calls@
    }

    open spec fn never_fails(&self) -> bool {
        true
    }

    fn write(&mut self, data: &Vec<u8>, len: usize) -> (r: Result<(), u64>) {
        append_prefix(&mut self.out, data, len);
        if self.writes < usize::MAX {
            self.writes = self.writes + 1;
        }
        self.calls = Ghost(self.calls@ + 1);
        self.chunks = Ghost(self.chunks@.push(data@.subrange(0, len as int)));
        Ok(())
    }
}

/// A consumer like [`MemSink`] that fails with `code` on its `fail_on`-th
/// write call, accepting nothing on the failing call. With `fail_on == 0` it
/// never fails.
pub struct FaultSink {
    /// Everything accepted so far, flattened, in order.
    pub out: Vec<u8>,
    /// How many write calls this consumer has answered, saturating: a run-time
    /// observation beside the exact ghost count the contracts speak of.
    pub writes: usize,
    /// The 1-based index of the write call that fails; `0` never fails.
    pub fail_on: usize,
    /// The error reported by the failing call.
    pub code: u64,
    /// The chunks accepted so far, in order.
    pub chunks: Ghost<Seq<Seq<u8>>>,
    /// How many write calls this consumer has answered.
    pub calls: Ghost<nat>,
}

impl FaultSink {
    /// An empty consumer whose `fail_on`-th write call reports `code`.
    pub fn new(fail_on: usize, code: u64) -> (s: FaultSink)
        ensures
            s.accepted() == Seq::<Seq<u8>>::empty(),
            s.writes() == 0,
            s.never_fails() == (fail_on == 0),
            s.out@ == Seq::<u8>::empty(),
            s.writes == 0,
            s.fail_on == fail_on,
            s.code == code,
    {
        FaultSink {
            out: Vec::new(),
            writes: 0,
            fail_on,
            code,
            chunks: Ghost(Seq::empty()),
            calls: Ghost(0),
        }
    }
}

impl Sink<u64> for FaultSink {
    open spec fn accepted(&self) -> Seq<Seq<u8>> {
        self.chunks@
    }

    open spec fn writes(&self) -> nat {
        self.calls@
    }

    open spec fn never_fails(&self) -> bool {
        self.fail_on == 0
    }

    fn write(&mut self, data: &Vec<u8>, len: usize) -> (r: Result<(), u64>) {
        if self.writes < usize::MAX {
            self.writes = self.writes + 1;
        }
        self.calls = Ghost(self.calls@ + 1);
        if self.writes == self.fail_on {
            return Err(self.code);
        }
        append_prefix(&mut self.out, data, len);
        self.chunks = Ghost(self.chunks@.push(data@.subrange(0, len as int)));
        Ok(())
    }
}

} // verus!
