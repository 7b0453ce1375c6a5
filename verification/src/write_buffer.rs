//! `WriteBuffer`: best-effort non-blocking delivery of byte sequences to a
//! transport, retaining whatever the transport cannot immediately accept in
//! an ordered backlog of `BufferVec` segments, and the three-way error
//! classification that drives its retry decisions.

use crate::buffer::{
    concat_all, lemma_concat_all_snoc, lemma_seg_bytes_snoc, lemma_seg_bytes_split,
    lemma_take_succ_bytes, seg_all_wf, seg_bytes, BufferVec,
};
use vstd::prelude::*;

verus! {

/// The error kinds a transport can report, as plain values. A transport
/// adapter maps its own error representation onto these before handing them
/// to this crate.
#[derive(Clone, Copy, Debug, PartialEq, Eq, Structural)]
pub enum ErrorKind {
    WouldBlock,
    NotConnected,
    UnexpectedEof,
    BrokenPipe,
    ConnectionAborted,
    Other,
}

/// Three-way classification of a transport failure: transient (retry later),
/// connection-terminal, or opaque and terminal.
#[derive(Clone, Copy, Debug, PartialEq, Eq, Structural)]
pub enum IOError {
    /// The transport cannot accept data right now; nothing was lost.
    WouldBlock,
    /// The connection is considered closed; `temporary` is never set on the
    /// paths taken here.
    EOF { temporary: bool },
    /// Any other failure, terminal. What is carried is the plain kind: a
    /// transport adapter reduces its own error value to that kind before it
    /// reaches this crate.
    Other(ErrorKind),
}

/// How a raw error kind is classified: "would block" is transient; an
/// unexpected end of stream, a broken pipe and an aborted connection all
/// mean the connection is gone; everything else is opaque and terminal.
pub open spec fn spec_classify(kind: ErrorKind) -> IOError {
    if kind == ErrorKind::WouldBlock {
        IOError::WouldBlock
    } else if kind == ErrorKind::UnexpectedEof || kind == ErrorKind::BrokenPipe
        || kind == ErrorKind::ConnectionAborted {
        IOError::EOF { temporary: false }
    } else {
        IOError::Other(kind)
    }
}

impl IOError {
    /// Classifies a transport error kind; the single point of truth for
    /// whether an error is retryable.
    pub fn from_kind(kind: ErrorKind) -> (r: IOError)
        ensures
            r == spec_classify(kind),
    {
        match kind {
            ErrorKind::WouldBlock => IOError::WouldBlock,
            ErrorKind::UnexpectedEof => IOError::EOF { temporary: false },
            ErrorKind::BrokenPipe => IOError::EOF { temporary: false },
            ErrorKind::ConnectionAborted => IOError::EOF { temporary: false },
            _ => IOError::Other(kind),
        }
    }
}

/// A non-blocking byte sink. One call makes one write attempt: the sink
/// either accepts some prefix of the offered bytes and returns its length,
/// or reports an error kind and accepts nothing.
pub trait ByteSink {
    /// All bytes the sink has accepted so far, in order. The writer's
    /// contracts are stated over this model, so an implementation is
    /// meaningful only if it overrides this to track what it accepts: the
    /// default — nothing is ever received — is consistent only with a sink
    /// that accepts no bytes. An implementation outside the verifier's
    /// reach is held to neither.
    open spec fn received(&self) -> Seq<u8> {
        Seq::<u8>::empty()
    }

    fn write_once(&mut self, data: &[u8]) -> (r: Result<usize, ErrorKind>)
        ensures
            r matches Ok(n) ==> n <= data@.len() && final(self).received() == old(
                self,
            ).received() + data@.take(n as int),
            r is Err ==> final(self).received() == old(self).received(),
    ;
}

#[verifier::external_type_specification]
#[verifier::external_body]
pub struct ExInstant(std::time::Instant);

/// Relies on std::time::Instant::now: an opaque timestamp of the present
/// moment; nothing is assumed of its value.
#[verifier::external_body]
fn instant_now() -> std::time::Instant {
    std::time::Instant::now()
}

/// Relies on std::time::Instant::elapsed: the time since the timestamp was
/// taken; nothing is assumed of its value.
#[verifier::external_body]
fn instant_elapsed(t: &std::time::Instant) -> std::time::Duration {
    t.elapsed()
}

/// An ordered queue of `BufferVec` segments (head = oldest unsent bytes)
/// plus the timestamp of the last successful transport write.
pub struct WriteBuffer {
    cap: usize,
    buf: Vec<BufferVec>,
    idle_instant: std::time::Instant,
}

impl WriteBuffer {
    /// The retained bytes not yet accepted by the transport, oldest first.
    pub closed spec fn pending(&self) -> Seq<u8> {
        seg_bytes(self.buf@)
    }

    /// The configured default capacity of a backlog segment.
    pub closed spec fn spec_cap(&self) -> nat {
        self.cap as nat
    }

    /// Every segment is well-formed and the backlog total fits in `usize`.
    pub closed spec fn wf(&self) -> bool {
        seg_all_wf(self.buf@) && seg_bytes(self.buf@).len() <= usize::MAX
    }

    /// An empty writer that pre-allocates one segment of capacity `cap`.
    pub fn new(cap: usize) -> (r: Self)
        ensures
            r.wf(),
            r.pending() == Seq::<u8>::empty(),
            r.spec_cap() == cap,
    {
        let mut buf: Vec<BufferVec> = Vec::new();
        buf.push(BufferVec::new(cap));
        let r = Self { cap, buf, idle_instant: instant_now() };
        proof {
            reveal_with_fuel(seg_bytes, 2);
            assert(r.buf@.drop_first() =~= Seq::<BufferVec>::empty());
            assert(r.pending() =~= Seq::<u8>::empty());
        }
        r
    }

    /// Time elapsed since the last successful transport write, however
    /// partial. Observational only: no staleness policy is enforced here.
    pub fn idle_duration(&self) -> std::time::Duration {
        instant_elapsed(&self.idle_instant)
    }

    /// The current backlog length: the sum of the segment sizes.
    pub fn buffered(&self) -> (r: usize)
        requires
            self.wf(),
        ensures
            r == self.pending().len(),
    {
        let mut total: usize = 0;
        let mut i: usize = 0;
        while i < self.buf.len()
            invariant
                self.wf(),
                i <= self.buf@.len(),
                total == seg_bytes(self.buf@.take(i as int)).len(),
            decreases self.buf@.len() - i,
        {
            proof {
                lemma_take_succ_bytes(self.buf@, i as int);
                lemma_seg_bytes_split(self.buf@, i as int + 1);
            }
            total = total + self.buf[i].len();
            i += 1;
        }
        proof {
            assert(self.buf@.take(self.buf@.len() as int) =~= self.buf@);
        }
        total
    }

    /// One logical write: issues transport writes while unsent bytes remain.
    /// On a transient failure after some progress, stops and reports the
    /// partial count as success; on a transient failure with zero progress
    /// (including a sink that accepts nothing), reports `WouldBlock`; any
    /// other failure is classified and propagated. The timestamp is
    /// refreshed on every successful write.
    fn raw_write<S: ByteSink>(w: &mut S, data: &[u8], s: &mut std::time::Instant) -> (r: Result<
        usize,
        IOError,
    >)
        ensures
            r matches Ok(n) ==> n <= data@.len() && final(w).received() == old(w).received()
                + data@.take(n as int),
            r is Err ==> exists|k: int|
                0 <= k < data@.len() && final(w).received() == old(w).received() + data@.take(k),
            r matches Err(IOError::WouldBlock) ==> final(w).received() == old(w).received(),
            r is Err ==> data@.len() > 0,
            r is Err ==> *final(s) == *old(s),
            !(r matches Err(IOError::EOF { temporary: true })),
    {
        let ghost r0 = w.received();
        let mut off: usize = 0;
        while off < data.len()
            invariant
                r0 == old(w).received(),
                *s == *old(s),
                off <= data@.len(),
                w.received() == r0 + data@.take(off as int),
            decreases data@.len() - off,
        {
            let (_, rest) = data.split_at(off);
            match w.write_once(rest) {
                Ok(n) => {
                    if n == 0 {
                        if off > 0 {
                            proof {
                                assert(w.received() =~= r0 + data@.take(off as int));
                            }
                            *s = instant_now();
                            return Ok(off);
                        }
                        proof {
                            assert(w.received() =~= r0 + data@.take(0));
                        }
                        return Err(IOError::WouldBlock);
                    }
                    proof {
                        assert(data@.take(off as int) + rest@.take(n as int) =~= data@.take(
                            off as int + n,
                        ));
                    }
                    off = off + n;
                },
                Err(kind) => {
                    if kind == ErrorKind::WouldBlock || kind == ErrorKind::NotConnected {
                        if off > 0 {
                            *s = instant_now();
                            return Ok(off);
                        }
                        proof {
                            assert(w.received() =~= r0 + data@.take(0));
                        }
                        return Err(IOError::WouldBlock);
                    }
                    return Err(IOError::from_kind(kind));
                },
            }
        }
        *s = instant_now();
        proof {
            assert(data@.take(data@.len() as int) =~= data@);
        }
        Ok(off)
    }

    /// Attempts, head first, to write every backlog segment to the
    /// transport. A fully written segment is removed; a partially written
    /// one keeps its unsent suffix at the head and the attempt stops with
    /// `WouldBlock`; a failed write leaves its segment untouched and stops
    /// with that error. Success means the backlog was completely drained.
    pub fn flush_buffer<S: ByteSink>(&mut self, writer: &mut S) -> (r: Result<(), IOError>)
        requires
            old(self).wf(),
        ensures
            final(self).wf(),
            final(self).spec_cap() == old(self).spec_cap(),
            (r is Ok) == (final(self).pending().len() == 0),
            !(r matches Err(IOError::EOF { temporary: true })),
            r is Ok ==> final(writer).received() == old(writer).received() + old(self).pending(),
            r matches Err(IOError::WouldBlock) ==> exists|k: int|
                0 <= k < old(self).pending().len() && final(writer).received() == old(
                    writer,
                ).received() + old(self).pending().take(k) && final(self).pending() == old(
                    self,
                ).pending().skip(k),
            r is Err ==> exists|m: int, j: int|
                0 <= m && 0 <= j && m + j < old(self).pending().len() && final(writer).received()
                    == old(writer).received() + old(self).pending().take(m) + old(
                    self,
                ).pending().skip(m).take(j) && final(self).pending() == old(self).pending().skip(
                    m,
                ),
    {
        let ghost p0 = old(self).pending();
        let ghost r0 = old(writer).received();
        let ghost mut done: int = 0;
        while self.buf.len() > 0
            invariant
                p0 == old(self).pending(),
                r0 == old(writer).received(),
                self.wf(),
                self.cap == old(self).cap,
                0 <= done <= p0.len(),
                writer.received() == r0 + p0.take(done),
                self.pending() == p0.skip(done),
            decreases self.buf@.len(),
        {
            let ghost bpre = self.buf@;
            let mut seg = self.buf.remove(0);
            let ghost segv = seg@;
            proof {
                assert(bpre.remove(0) =~= bpre.drop_first());
                assert(seg_all_wf(self.buf@)) by {
                    assert(forall|i: int|
                        0 <= i < bpre.drop_first().len() ==> bpre.drop_first()[i] == bpre[i + 1]);
                }
                assert(seg.wf());
                assert(seg_bytes(bpre) == bpre[0]@ + seg_bytes(bpre.drop_first()));
                // head and rest together make up the pending suffix
                assert(segv + seg_bytes(self.buf@) == p0.skip(done));
            }
            let seg_len = seg.len();
            let ghost rest = seg_bytes(self.buf@);
            let segslice = seg.read();
            proof {
                assert(segslice@ == segv);
            }
            match Self::raw_write(writer, segslice, &mut self.idle_instant) {
                Ok(written) => {
                    proof {
                        assert(written <= segv.len());
                        assert((segv + rest).take(written as int) =~= segv.take(written as int));
                        assert(p0.take(done) + p0.skip(done).take(written as int) =~= p0.take(
                            done + written,
                        ));
                        assert(writer.received() == r0 + p0.take(done + written));
                    }
                    if written == seg_len {
                        proof {
                            assert((segv + rest).skip(segv.len() as int) =~= rest);
                            assert(p0.skip(done).skip(seg_len as int) =~= p0.skip(
                                done + seg_len,
                            ));
                            assert(seg_bytes(self.buf@) == p0.skip(done + seg_len));
                            done = done + seg_len as int;
                        }
                    } else {
                        seg.rotate_left(written);
                        self.buf.insert(0, seg);
                        proof {
                            let bnow = self.buf@;
                            assert(bnow[0]@ == segv.skip(written as int));
                            assert(bnow.drop_first() =~= bpre.drop_first());
                            assert(seg_all_wf(bnow)) by {
                                assert(forall|i: int|
                                    1 <= i < bnow.len() ==> bnow[i] == bpre.drop_first()[i - 1]);
                            }
                            assert(self.pending() == segv.skip(written as int) + rest);
                            assert((segv + rest).skip(written as int) =~= segv.skip(
                                written as int,
                            ) + rest);
                            assert(p0.skip(done).skip(written as int) =~= p0.skip(done + written));
                            assert(self.pending() == p0.skip(done + written));
                            assert(self.pending().len() > 0);
                            // witnesses for the error clauses
                            assert(p0.take(done + written) + p0.skip(done + written).take(0)
                                =~= p0.take(done + written));
                        }
                        return Err(IOError::WouldBlock);
                    }
                },
                Err(err) => {
                    self.buf.insert(0, seg);
                    proof {
                        let bnow = self.buf@;
                        assert(bnow[0]@ == segv);
                        assert(bnow.drop_first() =~= bpre.drop_first());
                        assert(seg_all_wf(bnow)) by {
                            assert(forall|i: int|
                                1 <= i < bnow.len() ==> bnow[i] == bpre.drop_first()[i - 1]);
                        }
                        assert(self.pending() == segv + rest);
                        assert(self.pending() == p0.skip(done));
                        assert(self.pending().len() > 0);
                        assert forall|k2: int|
                            0 <= k2 <= segv.len() implies p0.skip(done).take(k2) == segv.take(
                            k2,
                        ) by {
                            assert((segv + rest).take(k2) =~= segv.take(k2));
                        }
                        assert(p0.take(done) + p0.skip(done).take(0) =~= p0.take(done));
                    }
                    return Err(err);
                },
            }
        }
        proof {
            assert(self.pending() =~= Seq::<u8>::empty());
            assert(p0.take(p0.len() as int) =~= p0);
        }
        Ok(())
    }

    /// Appends `data` to the backlog: into the tail segment when it has
    /// strictly more free space than needed, otherwise as a new tail segment
    /// of capacity `max(configured cap, data.len())`, so one oversized write
    /// never needs an in-place reallocation.
    fn copy_to_buffer(&mut self, data: &[u8])
        requires
            old(self).wf(),
            old(self).pending().len() + data@.len() <= usize::MAX,
        ensures
            final(self).wf(),
            final(self).spec_cap() == old(self).spec_cap(),
            final(self).pending() == old(self).pending() + data@,
    {
        if data.len() == 0 {
            proof {
                assert(self.pending() =~= self.pending() + data@);
            }
            return;
        }
        let n = self.buf.len();
        if n > 0 {
            let ghost bpre = self.buf@;
            let last_cap = self.buf[n - 1].cap();
            let last_len = self.buf[n - 1].len();
            proof {
                crate::buffer::lemma_wf_len_le_cap(bpre[n - 1]);
            }
            if last_cap - last_len > data.len() {
                proof {
                    assert(bpre.drop_last().push(bpre.last()) =~= bpre);
                    lemma_seg_bytes_snoc(bpre.drop_last(), bpre.last());
                }
                let popped = self.buf.pop();
                let mut seg = match popped {
                    Some(s) => s,
                    None => BufferVec::new(0),
                };
                proof {
                    assert(seg == bpre.last());
                }
                seg.copy_from(data);
                proof {
                    assert(seg@ == bpre.last()@ + data@.take(data@.len() as int));
                    assert(seg@ == bpre.last()@ + data@) by {
                        assert(data@.take(data@.len() as int) =~= data@);
                    }
                }
                self.buf.push(seg);
                proof {
                    lemma_seg_bytes_snoc(bpre.drop_last(), seg);
                    assert(seg_all_wf(self.buf@)) by {
                        assert(forall|i: int|
                            0 <= i < self.buf@.len() - 1 ==> self.buf@[i] == bpre.drop_last()[i]);
                        assert(self.buf@.last() == seg);
                    }
                    assert(self.pending() =~= old(self).pending() + data@);
                }
                return;
            }
        }
        let newcap = if self.cap > data.len() {
            self.cap
        } else {
            data.len()
        };
        let seg = BufferVec::from_slice(data, newcap);
        let ghost bpre = self.buf@;
        self.buf.push(seg);
        proof {
            lemma_seg_bytes_snoc(bpre, seg);
            assert(seg_all_wf(self.buf@)) by {
                assert(forall|i: int| 0 <= i < bpre.len() ==> self.buf@[i] == bpre[i]);
                assert(self.buf@.last() == seg);
            }
        }
    }

    /// Writes to the transport or retains in the backlog; a transient
    /// "would block" anywhere is absorbed, so the call succeeds with every
    /// byte of `data` either transmitted or retained, in order. A fatal
    /// error propagates at once, without buffering `data`.
    #[verifier::rlimit(60)]
    pub fn must_write<S: ByteSink>(&mut self, writer: &mut S, data: &[u8]) -> (r: Result<
        (),
        IOError,
    >)
        requires
            old(self).wf(),
            old(self).pending().len() + data@.len() <= usize::MAX,
        ensures
            final(self).wf(),
            final(self).spec_cap() == old(self).spec_cap(),
            !(r matches Err(IOError::WouldBlock)),
            !(r matches Err(IOError::EOF { temporary: true })),
            old(self).pending().len() == 0 && data@.len() == 0 ==> r is Ok,
            r is Err ==> exists|m: int|
                0 <= m <= old(self).pending().len() && final(self).pending() == old(
                    self,
                ).pending().skip(m),
            r is Ok ==> exists|k: int|
                0 <= k <= old(self).pending().len() + data@.len() && final(writer).received()
                    == old(writer).received() + (old(self).pending() + data@).take(k) && final(self).pending() == (old(self).pending() + data@).skip(k),
            r is Ok ==> final(writer).received() + final(self).pending() == old(writer).received()
                + old(self).pending() + data@,
            r is Err ==> exists|k: int|
                0 <= k <= old(self).pending().len() + data@.len() && final(writer).received()
                    == old(writer).received() + (old(self).pending() + data@).take(k),
    {
        let ghost p0 = old(self).pending();
        let ghost r0 = old(writer).received();
        let ghost all = p0 + data@;
        let ghost mut kk: int = 0;
        let written: usize;
        match self.flush_buffer(writer) {
            Ok(()) => {
                match Self::raw_write(writer, data, &mut self.idle_instant) {
                    Ok(w) => {
                        written = w;
                        proof {
                            kk = p0.len() + w;
                            assert(all.take(kk) =~= p0 + data@.take(w as int));
                            assert(self.pending() + data@.skip(w as int) =~= all.skip(kk));
                        }
                    },
                    Err(e) => {
                        if e == IOError::WouldBlock {
                            written = 0;
                            proof {
                                kk = p0.len() as int;
                                assert(all.take(kk) =~= p0);
                                assert(self.pending() + data@.skip(0) =~= all.skip(kk));
                            }
                        } else {
                            proof {
                                let k2 = choose|k2: int|
                                    0 <= k2 < data@.len() && writer.received() == (r0 + p0)
                                        + data@.take(k2);
                                assert(all.take(p0.len() + k2) =~= p0 + data@.take(k2));
                                assert(writer.received() == r0 + all.take(p0.len() + k2));
                                assert(self.pending() =~= p0.skip(p0.len() as int));
                            }
                            return Err(e);
                        }
                    },
                }
            },
            Err(e) => {
                if e == IOError::WouldBlock {
                    written = 0;
                    proof {
                        kk = choose|k2: int|
                            0 <= k2 < p0.len() && writer.received() == r0 + p0.take(k2)
                                && self.pending() == p0.skip(k2);
                        assert(all.take(kk) =~= p0.take(kk));
                        assert(p0.skip(kk) + data@ =~= all.skip(kk));
                        assert(self.pending() + data@.skip(0) =~= all.skip(kk));
                    }
                } else {
                    proof {
                        let (m, j) = choose|m: int, j: int|
                            0 <= m && 0 <= j && m + j < p0.len() && writer.received() == r0
                                + p0.take(m) + p0.skip(m).take(j) && self.pending() == p0.skip(
                                m,
                            );
                        assert(p0.take(m) + p0.skip(m).take(j) =~= p0.take(m + j));
                        assert(all.take(m + j) =~= p0.take(m + j));
                        assert(writer.received() == r0 + all.take(m + j));
                    }
                    return Err(e);
                }
            },
        }
        proof {
            assert(0 <= kk <= all.len());
            assert(writer.received() == r0 + all.take(kk));
            assert(self.pending() + data@.skip(written as int) == all.skip(kk));
            assert(self.pending().len() + (data@.len() - written) == all.len() - kk);
        }
        let (_, tail) = data.split_at(written);
        self.copy_to_buffer(tail);
        proof {
            assert(self.pending() == all.skip(kk));
            assert(all.take(kk) + all.skip(kk) =~= all);
        }
        Ok(())
    }

    /// Like `must_write`, except that a transient "would block" from the
    /// backlog flush or from the transport is reported to the caller; the
    /// unsent bytes of `data` are still retained, so nothing is lost.
    pub fn write<S: ByteSink>(&mut self, writer: &mut S, data: &[u8]) -> (r: Result<(), IOError>)
        requires
            old(self).wf(),
            old(self).pending().len() + data@.len() <= usize::MAX,
        ensures
            final(self).wf(),
            final(self).spec_cap() == old(self).spec_cap(),
            !(r matches Err(IOError::EOF { temporary: true })),
            (r is Ok || r matches Err(IOError::WouldBlock)) ==> exists|k: int|
                0 <= k <= old(self).pending().len() + data@.len() && final(writer).received()
                    == old(writer).received() + (old(self).pending() + data@).take(k) && final(self).pending() == (old(self).pending() + data@).skip(k),
            (r is Ok || r matches Err(IOError::WouldBlock)) ==> final(writer).received() + final(self).pending() == old(writer).received() + old(self).pending() + data@,
            r is Err ==> exists|k: int|
                0 <= k <= old(self).pending().len() + data@.len() && final(writer).received()
                    == old(writer).received() + (old(self).pending() + data@).take(k),
            old(self).pending().len() == 0 && data@.len() == 0 ==> r is Ok,
            r matches Err(e) ==> e == IOError::WouldBlock || (exists|m: int|
                0 <= m <= old(self).pending().len() && final(self).pending() == old(
                    self,
                ).pending().skip(m)),
    {
        let ghost p0 = old(self).pending();
        let ghost r0 = old(writer).received();
        let ghost all = p0 + data@;
        match self.flush_buffer(writer) {
            Ok(()) => {},
            Err(e) => {
                if e == IOError::WouldBlock {
                    let ghost kk = choose|k2: int|
                        0 <= k2 < p0.len() && writer.received() == r0 + p0.take(k2)
                            && self.pending() == p0.skip(k2);
                    proof {
                        assert(all.take(kk) =~= p0.take(kk));
                        assert(p0.skip(kk) + data@ =~= all.skip(kk));
                    }
                    self.copy_to_buffer(data);
                    proof {
                        assert(self.pending() == all.skip(kk));
                        assert(all.take(kk) + all.skip(kk) =~= all);
                    }
                    return Err(IOError::WouldBlock);
                } else {
                    proof {
                        let (m, j) = choose|m: int, j: int|
                            0 <= m && 0 <= j && m + j < p0.len() && writer.received() == r0
                                + p0.take(m) + p0.skip(m).take(j) && self.pending() == p0.skip(
                                m,
                            );
                        assert(p0.take(m) + p0.skip(m).take(j) =~= p0.take(m + j));
                        assert(all.take(m + j) =~= p0.take(m + j));
                        assert(writer.received() == r0 + all.take(m + j));
                    }
                    return Err(e);
                }
            },
        }
        match Self::raw_write(writer, data, &mut self.idle_instant) {
            Ok(w) => {
                proof {
                    assert(all.take(p0.len() + w) =~= p0 + data@.take(w as int));
                    assert(self.pending() + data@.skip(w as int) =~= all.skip(p0.len() + w));
                }
                let (_, tail) = data.split_at(w);
                self.copy_to_buffer(tail);
                proof {
                    assert(self.pending() == all.skip(p0.len() + w));
                    assert(all.take(p0.len() + w) + all.skip(p0.len() + w) =~= all);
                }
                Ok(())
            },
            Err(e) => {
                if e == IOError::WouldBlock {
                    proof {
                        assert(all.take(p0.len() as int) =~= p0);
                        assert(self.pending() + data@ =~= all.skip(p0.len() as int));
                    }
                    self.copy_to_buffer(data);
                    proof {
                        assert(self.pending() == all.skip(p0.len() as int));
                        assert(all.take(p0.len() as int) + all.skip(p0.len() as int) =~= all);
                    }
                    Err(IOError::WouldBlock)
                } else {
                    proof {
                        let k2 = choose|k2: int|
                            0 <= k2 < data@.len() && writer.received() == (r0 + p0) + data@.take(
                                k2,
                            );
                        assert(all.take(p0.len() + k2) =~= p0 + data@.take(k2));
                        assert(writer.received() == r0 + all.take(p0.len() + k2));
                        assert(self.pending() =~= p0.skip(p0.len() as int));
                    }
                    Err(e)
                }
            },
        }
    }
}

/// A deterministic transport for exercising the writer: a scripted list of
/// outcomes, consumed one per write attempt. An `Ok(n)` step accepts up to
/// `n` of the offered bytes; an `Err` step accepts nothing and reports that
/// kind. Once the script is exhausted every attempt accepts everything.
pub struct ScriptedSink {
    script: Vec<Result<usize, ErrorKind>>,
    at: usize,
    taken: Vec<u8>,
}

impl ScriptedSink {
    /// The scripted outcomes not yet consumed.
    pub closed spec fn remaining(&self) -> Seq<Result<usize, ErrorKind>> {
        if self.at <= self.script@.len() {
            self.script@.skip(self.at as int)
        } else {
            Seq::<Result<usize, ErrorKind>>::empty()
        }
    }

    pub fn new(script: Vec<Result<usize, ErrorKind>>) -> (r: Self)
        ensures
            r.received() == Seq::<u8>::empty(),
            r.remaining() == script@,
    {
        let r = Self { script, at: 0, taken: Vec::new() };
        proof {
            assert(r.remaining() =~= r.script@);
        }
        r
    }

    /// The bytes the transport has accepted so far, in order.
    pub fn taken_bytes(&self) -> (r: &Vec<u8>)
        ensures
            r@ == self.received(),
    {
        &self.taken
    }
}

impl ByteSink for ScriptedSink {
    closed spec fn received(&self) -> Seq<u8> {
        self.taken@
    }

    /// Consumes one scripted outcome per attempt: an `Ok(n)` step accepts
    /// `min(n, data.len())` bytes, an `Err` step reports that kind; past the
    /// script's end everything is accepted.
    fn write_once(&mut self, data: &[u8]) -> (r: Result<usize, ErrorKind>)
        ensures
            old(self).remaining().len() > 0 ==> final(self).remaining() == old(
                self,
            ).remaining().drop_first() && (old(self).remaining()[0] matches Ok(n) ==> r == Ok::<
                usize,
                ErrorKind,
            >(vstd::math::min(n as int, data@.len() as int) as usize)) && (old(
                self,
            ).remaining()[0] matches Err(k) ==> r == Err::<usize, ErrorKind>(k)),
            old(self).remaining().len() == 0 ==> final(self).remaining().len() == 0 && r == Ok::<
                usize,
                ErrorKind,
            >(data@.len() as usize),
    {
        let step: Result<usize, ErrorKind> = if self.at < self.script.len() {
            let s = self.script[self.at];
            self.at = self.at + 1;
            proof {
                assert(old(self).remaining()[0] == s);
                assert(self.remaining() =~= old(self).remaining().drop_first());
            }
            s
        } else {
            Ok(data.len())
        };
        match step {
            Ok(n) => {
                let m = if n < data.len() {
                    n
                } else {
                    data.len()
                };
                let ghost prev = self.taken@;
                let ghost at1 = self.at;
                let ghost script1 = self.script@;
                proof {
                    assert(self.taken@ =~= prev + data@.take(0));
                }
                let mut j: usize = 0;
                while j < m
                    invariant
                        j <= m,
                        m <= data@.len(),
                        self.at == at1,
                        self.script@ == script1,
                        self.taken@ == prev + data@.take(j as int),
                    decreases m - j,
                {
                    self.taken.push(data[j]);
                    proof {
                        assert(self.taken@ =~= prev + data@.take(j as int + 1));
                    }
                    j += 1;
                }
                Ok(m)
            },
            Err(k) => Err(k),
        }
    }
}

/// Delivery without loss: when an operation preserved every byte (what the
/// transport has received plus what stayed buffered equals what it had
/// received before plus the old backlog plus the new data) and the backlog
/// ended empty, then every byte has arrived, in order, with no gaps or
/// duplicates.
pub proof fn lemma_drained_backlog_means_all_delivered(
    received0: Seq<u8>,
    pending0: Seq<u8>,
    data: Seq<u8>,
    received1: Seq<u8>,
    pending1: Seq<u8>,
)
    requires
        received1 + pending1 == received0 + pending0 + data,
        pending1.len() == 0,
    ensures
        received1 == received0 + pending0 + data,
{
    assert(received1 =~= received1 + pending1);
}

/// Conservation telescopes over any chain of writer operations: when each
/// step preserves every byte — what the transport has received plus what
/// stays buffered grows by exactly the data handed in, as the writer's
/// contracts state per call — the chain as a whole does too. State `i` holds
/// the transport's received bytes and the writer's backlog before step `i`;
/// step `i` hands `datas[i]` to the writer.
pub proof fn lemma_chain_conservation(
    received: Seq<Seq<u8>>,
    pending: Seq<Seq<u8>>,
    datas: Seq<Seq<u8>>,
)
    requires
        received.len() == pending.len(),
        received.len() == datas.len() + 1,
        forall|i: int|
            0 <= i < datas.len() ==> received[i + 1] + pending[i + 1] == received[i] + pending[i]
                + #[trigger] datas[i],
    ensures
        received.last() + pending.last() == received[0] + pending[0] + concat_all(datas),
    decreases datas.len(),
{
    if datas.len() == 0 {
        assert(concat_all(datas) =~= Seq::<u8>::empty());
        assert(received[0] + pending[0] =~= received[0] + pending[0] + concat_all(datas));
    } else {
        let n = datas.len() as int;
        assert forall|i: int|
            0 <= i < n - 1 implies received.drop_last()[i + 1] + pending.drop_last()[i + 1]
            == received.drop_last()[i] + pending.drop_last()[i] + #[trigger] datas.drop_last()[i] by {
            assert(datas.drop_last()[i] == datas[i]);
        }
        lemma_chain_conservation(received.drop_last(), pending.drop_last(), datas.drop_last());
        assert(received[n - 1] + pending[n - 1] == received[0] + pending[0] + concat_all(
            datas.drop_last(),
        ));
        assert(received[n] + pending[n] == received[n - 1] + pending[n - 1] + datas[n - 1]);
        lemma_concat_all_snoc(datas.drop_last(), datas.last());
        assert(datas.drop_last().push(datas.last()) =~= datas);
        assert(received[n] + pending[n] =~= received[0] + pending[0] + concat_all(datas));
    }
}

/// Delivery across any chain of writes: when every step preserved every
/// byte, the backlog started empty and ended empty, the transport has
/// received exactly the concatenation of all the data handed to the writer,
/// in order, with no gaps and no duplicates.
pub proof fn lemma_chain_delivery(received: Seq<Seq<u8>>, pending: Seq<Seq<u8>>, datas: Seq<Seq<u8>>)
    requires
        received.len() == pending.len(),
        received.len() == datas.len() + 1,
        forall|i: int|
            0 <= i < datas.len() ==> received[i + 1] + pending[i + 1] == received[i] + pending[i]
                + #[trigger] datas[i],
        pending[0].len() == 0,
        pending.last().len() == 0,
    ensures
        received.last() == received[0] + concat_all(datas),
{
    lemma_chain_conservation(received, pending, datas);
    assert(received.last() =~= received.last() + pending.last());
    assert(received[0] + pending[0] + concat_all(datas) =~= received[0] + concat_all(datas));
}

/// Retrying after a partial write: if a write delivered the first `k` bytes
/// of a sequence and retained the rest, and a later flush delivered exactly
/// what was retained, the transport has received the whole sequence in its
/// original order.
pub proof fn lemma_flush_after_partial_write(
    received0: Seq<u8>,
    all: Seq<u8>,
    k: int,
    received1: Seq<u8>,
    received2: Seq<u8>,
)
    requires
        0 <= k <= all.len(),
        received1 == received0 + all.take(k),
        received2 == received1 + all.skip(k),
    ensures
        received2 == received0 + all,
{
    assert(all.take(k) + all.skip(k) =~= all);
    assert(received2 =~= received0 + all);
}

} // verus!
