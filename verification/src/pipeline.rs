//! The double-buffer copy pipeline: one unconditional first read, then one
//! step per iteration, chosen by [`crate::step::next_step`], until the
//! producer is exhausted or either side fails.

use vstd::prelude::*;

use crate::step::{lemma_step_characterization, next_step, resolve_joined, Step};
use crate::stream::{new_chunks, Sink, Source};

verus! {

/// Copy every byte of `src` to `dst`, alternating between the two buffers so
/// that each step writes the chunk read in the previous step while the other
/// buffer is refilled.
///
/// With capabilities that cannot fail the copy succeeds. On success the
/// producer is exhausted and the consumer has accepted, in order, exactly the
/// chunks the producer's nonzero reads handed out, which concatenate to the
/// producer's bytes. On failure the first error observed is returned
/// unchanged — the read's error when both halves of one step fail — and the
/// consumer holds a prefix of the chunks handed out, concatenating to a
/// prefix of what was consumed. In every case the producer only ever moves
/// forward, the buffers keep their lengths, every accepted chunk is a
/// nonzero prefix of one buffer, and after the one initial read each further
/// read was joined with exactly one write: a failure ends the run with
/// nothing retried.
pub fn copy_double_buffered<E, R: Source<E>, W: Sink<E>>(
    src: &mut R,
    dst: &mut W,
    buf_a: &mut Vec<u8>,
    buf_b: &mut Vec<u8>,
) -> (r: Result<(), E>)
    requires
        old(buf_a)@.len() >= 1,
        old(buf_b)@.len() >= 1,
    ensures
        final(buf_a)@.len() == old(buf_a)@.len(),
        final(buf_b)@.len() == old(buf_b)@.len(),
        exists|c: int|
            0 <= c <= old(src).remaining().len() && final(src).remaining() == old(
                src,
            ).remaining().skip(c),
        final(src).never_fails() == old(src).never_fails(),
        final(dst).never_fails() == old(dst).never_fails(),
        old(src).never_fails() && old(dst).never_fails() ==> r is Ok,
        final(src).reads() == old(src).reads() + 1 + (final(dst).writes() - old(dst).writes()),
        final(dst).writes() >= old(dst).writes(),
        old(dst).accepted().is_prefix_of(final(dst).accepted()),
        old(src).produced().is_prefix_of(final(src).produced()),
        final(dst).accepted().len() - old(dst).accepted().len() <= final(dst).writes() - old(
            dst,
        ).writes(),
        final(dst).writes() - old(dst).writes() <= final(dst).accepted().len() - old(
            dst,
        ).accepted().len() + 1,
        new_chunks(old(dst).accepted(), final(dst).accepted()).is_prefix_of(
            new_chunks(old(src).produced(), final(src).produced()),
        ),
        forall|i: int|
            old(dst).accepted().len() <= i < final(dst).accepted().len()
                ==> (#[trigger] final(dst).accepted()[i]).len() > 0,
        forall|i: int|
            old(dst).accepted().len() <= i < final(dst).accepted().len()
                ==> ((#[trigger] final(dst).accepted()[i]).len() <= old(buf_a)@.len()
                    || final(dst).accepted()[i].len() <= old(buf_b)@.len()),
        r is Ok ==> {
            &&& final(src).remaining().len() == 0
            &&& new_chunks(old(dst).accepted(), final(dst).accepted()).flatten() == old(
                src,
            ).remaining()
            &&& new_chunks(old(dst).accepted(), final(dst).accepted()) == new_chunks(
                old(src).produced(),
                final(src).produced(),
            )
            &&& final(dst).writes() - old(dst).writes() == final(dst).accepted().len() - old(
                dst,
            ).accepted().len()
        },
        r is Err ==> exists|k: int|
            0 <= k <= old(src).remaining().len() - final(src).remaining().len() && new_chunks(
                old(dst).accepted(),
                final(dst).accepted(),
            ).flatten() == old(src).remaining().take(k),
{
    let ghost s0 = src.remaining();
    let ghost a0 = dst.accepted();
    let ghost p0 = src.produced();
    let ghost r0 = src.reads();
    let ghost z0 = dst.writes();
    let mut read_a: usize = match src.read(buf_a) {
        Ok(n) => n,
        Err(e) => {
            proof {
                assert(src.remaining() == s0.skip(0)) by {
                    assert(s0.skip(0) =~= s0);
                }
                assert(dst.accepted() == a0 + Seq::<Seq<u8>>::empty()) by {
                    assert(a0 + Seq::<Seq<u8>>::empty() =~= a0);
                }
                assert(src.produced() == p0 + Seq::<Seq<u8>>::empty()) by {
                    assert(p0 + Seq::<Seq<u8>>::empty() =~= p0);
                }
                assert(Seq::<Seq<u8>>::empty().is_prefix_of(Seq::<Seq<u8>>::empty())) by {
                    assert(Seq::<Seq<u8>>::empty() =~= Seq::<Seq<u8>>::empty().subrange(0, 0));
                }
                lemma_return_shape(
                    a0,
                    dst.accepted(),
                    Seq::empty(),
                    p0,
                    src.produced(),
                    Seq::empty(),
                    buf_a@.len() as nat,
                    buf_b@.len() as nat,
                );
                assert(new_chunks(a0, dst.accepted()).flatten() == s0.take(0)) by {
                    assert(Seq::<Seq<u8>>::empty().flatten() =~= s0.take(0));
                }
            }
            return Err(e);
        },
    };
    let mut read_b: usize = 0;
    let ghost mut done: int = read_a as int;
    let ghost mut cs: Seq<Seq<u8>> = Seq::empty();
    proof {
        assert(dst.accepted() == a0 + cs) by {
            assert(a0 + Seq::<Seq<u8>>::empty() =~= a0);
        }
        assert(cs.flatten() == s0.take(0)) by {
            assert(Seq::<Seq<u8>>::empty().flatten() =~= s0.take(0));
        }
        if read_a > 0 {
            assert(src.produced() == p0 + cs.push(s0.subrange(0, read_a as int))) by {
                assert(p0.push(s0.subrange(0, read_a as int)) =~= p0 + Seq::<Seq<u8>>::empty().push(
                    s0.subrange(0, read_a as int),
                ));
            }
        } else {
            assert(src.produced() == p0 + cs) by {
                assert(p0 + Seq::<Seq<u8>>::empty() =~= p0);
            }
        }
    }
    loop
        invariant
            buf_a@.len() == old(buf_a)@.len(),
            buf_b@.len() == old(buf_b)@.len(),
            buf_a@.len() >= 1,
            buf_b@.len() >= 1,
            read_a <= buf_a@.len(),
            read_b <= buf_b@.len(),
            read_a == 0 || read_b == 0,
            read_a + read_b <= done,
            done <= s0.len(),
            s0 == old(src).remaining(),
            a0 == old(dst).accepted(),
            p0 == old(src).produced(),
            r0 == old(src).reads(),
            z0 == old(dst).writes(),
            src.remaining() == s0.skip(done),
            src.never_fails() == old(src).never_fails(),
            dst.never_fails() == old(dst).never_fails(),
            dst.accepted() == a0 + cs,
            cs.flatten() == s0.take(done - (read_a + read_b)),
            dst.writes() == z0 + cs.len(),
            src.reads() == r0 + 1 + cs.len(),
            forall|i: int| 0 <= i < cs.len() ==> (#[trigger] cs[i]).len() > 0,
            forall|i: int|
                0 <= i < cs.len() ==> ((#[trigger] cs[i]).len() <= buf_a@.len() || cs[i].len()
                    <= buf_b@.len()),
            read_a + read_b > 0 ==> src.produced() == p0 + cs.push(
                s0.subrange(done - (read_a + read_b), done),
            ),
            read_a == 0 && read_b == 0 ==> src.produced() == p0 + cs,
            read_a > 0 ==> buf_a@.subrange(0, read_a as int) == s0.subrange(done - read_a, done),
            read_b > 0 ==> buf_b@.subrange(0, read_b as int) == s0.subrange(done - read_b, done),
            read_a == 0 && read_b == 0 ==> done == s0.len(),
        decreases s0.len() - done, read_a + read_b,
    {
        let s = next_step(read_a, read_b);
        match s {
            Step::Done => {
                proof {
                    lemma_step_characterization(read_a as int, read_b as int);
                    assert(s0.take(s0.len() as int) =~= s0);
                    assert(cs.is_prefix_of(cs)) by {
                        assert(cs =~= cs.subrange(0, cs.len() as int));
                    }
                    lemma_return_shape(
                        a0,
                        dst.accepted(),
                        cs,
                        p0,
                        src.produced(),
                        cs,
                        buf_a@.len() as nat,
                        buf_b@.len() as nat,
                    );
                }
                return Ok(());
            },
            Step::Pipelined { write_a: true, .. } => {
                let ghost chunk: Seq<u8> = s0.subrange(done - read_a, done);
                let rr = src.read(buf_b);
                let wr = dst.write(buf_a, read_a);
                let ghost g_rr = rr;
                let ghost g_wr = wr;
                let ghost ra: int = read_a as int;
                read_a = 0;
                proof {
                    step_facts(s0, done, ra, cs, chunk);
                    if g_rr is Ok {
                        let n2: int = g_rr->Ok_0 as int;
                        assert(s0.skip(done).skip(n2) =~= s0.skip(done + n2));
                        if n2 > 0 {
                            assert(s0.skip(done).subrange(0, n2) =~= s0.subrange(done, done + n2));
                        }
                    }
                }
                match resolve_joined(rr, wr) {
                    Ok(n) => {
                        read_b = n;
                        proof {
                            assert((a0 + cs).push(chunk) =~= a0 + cs.push(chunk));
                            if n > 0 {
                                assert((p0 + cs.push(chunk)).push(s0.subrange(done, done + n))
                                    =~= p0 + cs.push(chunk).push(s0.subrange(done, done + n)));
                            }
                            assert forall|i: int|
                                0 <= i < cs.push(chunk).len() implies (#[trigger] cs.push(
                                chunk,
                            )[i]).len() > 0 by {
                                if i < cs.len() {
                                    assert(cs.push(chunk)[i] == cs[i]);
                                } else {
                                    assert(cs.push(chunk)[i] == chunk);
                                }
                            }
                            assert forall|i: int|
                                0 <= i < cs.push(chunk).len() implies ((#[trigger] cs.push(
                                chunk,
                            )[i]).len() <= buf_a@.len() || cs.push(chunk)[i].len()
                                <= buf_b@.len()) by {
                                if i < cs.len() {
                                    assert(cs.push(chunk)[i] == cs[i]);
                                } else {
                                    assert(cs.push(chunk)[i] == chunk);
                                }
                            }
                            cs = cs.push(chunk);
                            done = done + n;
                        }
                    },
                    Err(e) => {
                        proof {
                            failing_step_shape(
                                s0, done, ra, a0, p0, cs, chunk, g_rr, g_wr,
                                dst.accepted(), src.produced(),
                                buf_a@.len() as nat, buf_b@.len() as nat,
                            );
                            if old(src).never_fails() && old(dst).never_fails() {
                                assert(g_rr is Ok);
                                assert(g_wr is Ok);
                                assert(false);
                            }
                        }
                        return Err(e);
                    },
                }
            },
            Step::Pipelined { write_a: false, .. } => {
                let ghost chunk: Seq<u8> = s0.subrange(done - read_b, done);
                let rr = src.read(buf_a);
                let wr = dst.write(buf_b, read_b);
                let ghost g_rr = rr;
                let ghost g_wr = wr;
                let ghost rb: int = read_b as int;
                read_b = 0;
                proof {
                    step_facts(s0, done, rb, cs, chunk);
                    if g_rr is Ok {
                        let n2: int = g_rr->Ok_0 as int;
                        assert(s0.skip(done).skip(n2) =~= s0.skip(done + n2));
                        if n2 > 0 {
                            assert(s0.skip(done).subrange(0, n2) =~= s0.subrange(done, done + n2));
                        }
                    }
                }
                match resolve_joined(rr, wr) {
                    Ok(n) => {
                        read_a = n;
                        proof {
                            assert((a0 + cs).push(chunk) =~= a0 + cs.push(chunk));
                            if n > 0 {
                                assert((p0 + cs.push(chunk)).push(s0.subrange(done, done + n))
                                    =~= p0 + cs.push(chunk).push(s0.subrange(done, done + n)));
                            }
                            assert forall|i: int|
                                0 <= i < cs.push(chunk).len() implies (#[trigger] cs.push(
                                chunk,
                            )[i]).len() > 0 by {
                                if i < cs.len() {
                                    assert(cs.push(chunk)[i] == cs[i]);
                                } else {
                                    assert(cs.push(chunk)[i] == chunk);
                                }
                            }
                            assert forall|i: int|
                                0 <= i < cs.push(chunk).len() implies ((#[trigger] cs.push(
                                chunk,
                            )[i]).len() <= buf_a@.len() || cs.push(chunk)[i].len()
                                <= buf_b@.len()) by {
                                if i < cs.len() {
                                    assert(cs.push(chunk)[i] == cs[i]);
                                } else {
                                    assert(cs.push(chunk)[i] == chunk);
                                }
                            }
                            cs = cs.push(chunk);
                            done = done + n;
                        }
                    },
                    Err(e) => {
                        proof {
                            failing_step_shape(
                                s0, done, rb, a0, p0, cs, chunk, g_rr, g_wr,
                                dst.accepted(), src.produced(),
                                buf_a@.len() as nat, buf_b@.len() as nat,
                            );
                            if old(src).never_fails() && old(dst).never_fails() {
                                assert(g_rr is Ok);
                                assert(g_wr is Ok);
                                assert(false);
                            }
                        }
                        return Err(e);
                    },
                }
            },
            Step::Drain => {
                // Both fill lengths positive with no read in flight: flush in
                // source order, first the earlier chunk. The invariant above
                // shows this state never arises — at most one fill length is
                // positive at the top of the loop — but every state keeps a
                // defined action.
                proof {
                    lemma_step_characterization(read_a as int, read_b as int);
                }
                let wr_a = dst.write(buf_a, read_a);
                read_a = 0;
                match wr_a {
                    Ok(_) => {},
                    Err(e) => {
                        return Err(e);
                    },
                }
                let wr_b = dst.write(buf_b, read_b);
                read_b = 0;
                match wr_b {
                    Ok(_) => {},
                    Err(e) => {
                        return Err(e);
                    },
                }
            },
        }
    }
}

/// After one pipelined step that wrote the chunk ending at position `done` of
/// the source: the flattened history gains that chunk, and the accepted
/// history stays aligned with the history before the step.
proof fn step_facts(s0: Seq<u8>, done: int, len: int, cs: Seq<Seq<u8>>, chunk: Seq<u8>)
    requires
        0 <= len <= done <= s0.len(),
        chunk == s0.subrange(done - len, done),
        cs.flatten() == s0.take(done - len),
    ensures
        cs.push(chunk).flatten() == s0.take(done),
        cs.is_prefix_of(cs.push(chunk)),
{
    cs.lemma_flatten_push(chunk);
    assert(s0.take(done - len) + s0.subrange(done - len, done) =~= s0.take(done));
    assert(cs =~= cs.push(chunk).subrange(0, cs.len() as int));
}

/// A return point's obligations, restated over the whole histories from the
/// chunk lists they extend the initial histories by.
proof fn lemma_return_shape(
    a0: Seq<Seq<u8>>,
    acc: Seq<Seq<u8>>,
    xs: Seq<Seq<u8>>,
    p0: Seq<Seq<u8>>,
    prod: Seq<Seq<u8>>,
    ys: Seq<Seq<u8>>,
    cap_a: nat,
    cap_b: nat,
)
    requires
        acc == a0 + xs,
        prod == p0 + ys,
        xs.is_prefix_of(ys),
        forall|i: int| 0 <= i < xs.len() ==> (#[trigger] xs[i]).len() > 0,
        forall|i: int|
            0 <= i < xs.len() ==> ((#[trigger] xs[i]).len() <= cap_a || xs[i].len() <= cap_b),
    ensures
        a0.is_prefix_of(acc),
        p0.is_prefix_of(prod),
        new_chunks(a0, acc) == xs,
        new_chunks(p0, prod) == ys,
        new_chunks(a0, acc).is_prefix_of(new_chunks(p0, prod)),
        forall|i: int| a0.len() <= i < acc.len() ==> (#[trigger] acc[i]).len() > 0,
        forall|i: int|
            a0.len() <= i < acc.len() ==> ((#[trigger] acc[i]).len() <= cap_a || acc[i].len()
                <= cap_b),
{
    assert(new_chunks(a0, acc) =~= xs);
    assert(new_chunks(p0, prod) =~= ys);
    assert(a0 =~= acc.subrange(0, a0.len() as int));
    assert(p0 =~= prod.subrange(0, p0.len() as int));
    assert forall|i: int| a0.len() <= i < acc.len() implies (#[trigger] acc[i]).len() > 0 by {
        assert(acc[i] == xs[i - a0.len()]);
    }
    assert forall|i: int|
        a0.len() <= i < acc.len() implies ((#[trigger] acc[i]).len() <= cap_a || acc[i].len()
        <= cap_b) by {
        assert(acc[i] == xs[i - a0.len()]);
    }
}

/// The histories after a pipelined step whose joined outcome failed: the
/// consumer gained the written chunk where the write went through and nothing
/// otherwise, the producer gained the chunk of a successful nonzero read, and
/// either way the consumer's new chunks are a prefix of the producer's.
proof fn failing_step_shape<E>(
    s0: Seq<u8>,
    done: int,
    len: int,
    a0: Seq<Seq<u8>>,
    p0: Seq<Seq<u8>>,
    cs: Seq<Seq<u8>>,
    chunk: Seq<u8>,
    g_rr: Result<usize, E>,
    g_wr: Result<(), E>,
    acc: Seq<Seq<u8>>,
    prod: Seq<Seq<u8>>,
    cap_a: nat,
    cap_b: nat,
)
    requires
        0 < len <= done <= s0.len(),
        chunk == s0.subrange(done - len, done),
        cs.flatten() == s0.take(done - len),
        len <= cap_a || len <= cap_b,
        forall|i: int| 0 <= i < cs.len() ==> (#[trigger] cs[i]).len() > 0,
        forall|i: int|
            0 <= i < cs.len() ==> ((#[trigger] cs[i]).len() <= cap_a || cs[i].len() <= cap_b),
        acc == if g_wr is Ok {
            (a0 + cs).push(chunk)
        } else {
            a0 + cs
        },
        prod == if g_rr is Ok && g_rr->Ok_0 > 0 {
            (p0 + cs.push(chunk)).push(s0.subrange(done, done + g_rr->Ok_0 as int))
        } else {
            p0 + cs.push(chunk)
        },
    ensures
        a0.is_prefix_of(acc),
        p0.is_prefix_of(prod),
        new_chunks(a0, acc).is_prefix_of(new_chunks(p0, prod)),
        forall|i: int| a0.len() <= i < acc.len() ==> (#[trigger] acc[i]).len() > 0,
        forall|i: int|
            a0.len() <= i < acc.len() ==> ((#[trigger] acc[i]).len() <= cap_a || acc[i].len()
                <= cap_b),
        acc.len() - a0.len() <= 1 + cs.len(),
        g_wr is Ok ==> acc.len() - a0.len() == cs.len() + 1 && new_chunks(a0, acc).flatten()
            == s0.take(done),
        g_wr is Err ==> acc.len() - a0.len() == cs.len() && new_chunks(a0, acc).flatten()
            == s0.take(done - len),
{
    let xs = if g_wr is Ok {
        cs.push(chunk)
    } else {
        cs
    };
    let ys = if g_rr is Ok && g_rr->Ok_0 > 0 {
        cs.push(chunk).push(s0.subrange(done, done + g_rr->Ok_0 as int))
    } else {
        cs.push(chunk)
    };
    assert(acc =~= a0 + xs);
    assert(prod =~= p0 + ys);
    assert(xs.is_prefix_of(ys)) by {
        assert(xs =~= ys.subrange(0, xs.len() as int));
    }
    step_facts(s0, done, len, cs, chunk);
    lemma_return_shape(a0, acc, xs, p0, prod, ys, cap_a, cap_b);
}

} // verus!
