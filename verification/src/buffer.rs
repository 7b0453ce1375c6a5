//! `BufferVec`: a fixed-capacity byte region split into a filled, readable
//! prefix and an unfilled, writable suffix. `ExpandVec`: an append-only log
//! of owned chunks with deferred flattening.

use crate::write_buffer::ErrorKind;
use vstd::prelude::*;

verus! {

/// A non-blocking byte source. One call makes one read attempt: the source
/// hands over the bytes it had ready, at most `max` of them; an empty
/// result signals end of stream.
pub trait ByteSource {
    /// All bytes the source has handed out so far, in order. The fill
    /// contracts are stated over this model, so an implementation is
    /// meaningful only if it overrides this to track what it hands out: the
    /// default — nothing is ever handed out — is consistent only with a
    /// source that yields no bytes. An implementation outside the
    /// verifier's reach is held to neither.
    open spec fn handed(&self) -> Seq<u8> {
        Seq::<u8>::empty()
    }

    fn read_once(&mut self, max: usize) -> (r: Result<Vec<u8>, ErrorKind>)
        ensures
            r matches Ok(v) ==> v@.len() <= max && final(self).handed() == old(self).handed()
                + v@,
            r is Err ==> final(self).handed() == old(self).handed(),
    ;
}

/// A contiguous byte region of fixed capacity. The prefix `[0, size)` holds
/// committed (readable) bytes; the suffix `[size, cap)` is free space.
pub struct BufferVec {
    raw: Vec<u8>,
    size: usize,
}

impl View for BufferVec {
    type V = Seq<u8>;

    /// The committed bytes, in order.
    closed spec fn view(&self) -> Seq<u8> {
        self.raw@.take(self.size as int)
    }
}

impl BufferVec {
    /// The filled prefix never runs past the allocated region.
    pub closed spec fn wf(&self) -> bool {
        self.size <= self.raw@.len()
    }

    /// Total capacity of the region, filled and free space together.
    pub closed spec fn spec_cap(&self) -> nat {
        self.raw@.len()
    }

    /// The whole backing region, committed prefix and free suffix together.
    pub closed spec fn region(&self) -> Seq<u8> {
        self.raw@
    }

    /// A zeroed region of `size` bytes with nothing committed.
    pub fn new(size: usize) -> (r: Self)
        ensures
            r.wf(),
            r@ == Seq::<u8>::empty(),
            r.spec_cap() == size,
            r.region().len() == size,
            forall|i: int| 0 <= i < size ==> r.region()[i] == 0u8,
    {
        let mut raw: Vec<u8> = Vec::new();
        let mut i: usize = 0;
        while i < size
            invariant
                i <= size,
                raw@.len() == i,
                forall|t: int| 0 <= t < i ==> raw@[t] == 0u8,
            decreases size - i,
        {
            raw.push(0u8);
            i += 1;
        }
        let r = Self { raw, size: 0 };
        proof {
            assert(r@ =~= Seq::<u8>::empty());
        }
        r
    }

    /// Number of committed bytes.
    pub fn len(&self) -> (r: usize)
        requires
            self.wf(),
        ensures
            r == self@.len(),
    {
        self.size
    }

    /// Total capacity in bytes.
    pub fn cap(&self) -> (r: usize)
        ensures
            r == self.spec_cap(),
    {
        self.raw.len()
    }

    /// Whether no free space is left.
    pub fn is_full(&self) -> (r: bool)
        requires
            self.wf(),
        ensures
            r == (self@.len() == self.spec_cap()),
    {
        self.size == self.raw.len()
    }

    /// Discards all committed bytes; capacity is kept.
    pub fn clear(&mut self)
        ensures
            final(self).wf(),
            final(self)@ == Seq::<u8>::empty(),
            final(self).spec_cap() == old(self).spec_cap(),
    {
        self.size = 0;
        proof {
            assert(self@ =~= Seq::<u8>::empty());
        }
    }

    /// The committed bytes as a slice.
    pub fn read(&self) -> (r: &[u8])
        requires
            self.wf(),
        ensures
            r@ == self@,
    {
        let (head, _) = self.raw.as_slice().split_at(self.size);
        head
    }

    /// The first `n` committed bytes, or `None` when fewer are committed.
    pub fn read_n(&self, n: usize) -> (r: Option<&[u8]>)
        requires
            self.wf(),
        ensures
            (r is Some) == (n <= self@.len()),
            r matches Some(s) ==> s@ == self@.take(n as int),
    {
        if self.size >= n {
            let (head, _) = self.raw.as_slice().split_at(n);
            proof {
                assert(head@ =~= self@.take(n as int));
            }
            Some(head)
        } else {
            None
        }
    }

    /// The free region as a mutable slice, for an external writer to fill
    /// directly; the committed bytes are untouched however the slice is
    /// written. Commit what was written with `advance`.
    pub fn write(&mut self) -> (r: &mut [u8])
        requires
            old(self).wf(),
        ensures
            r@ == old(self).region().skip(old(self)@.len() as int),
            final(self).wf(),
            final(self)@ == old(self)@,
            final(self).spec_cap() == old(self)@.len() + final(r)@.len(),
            final(self).region() == old(self).region().take(old(self)@.len() as int)
                + final(r)@,
    {
        let size = self.size;
        let (_, tail) = self.raw.as_mut_slice().split_at_mut(size);
        tail
    }

    /// Commits `n` bytes that an external writer has already placed in the
    /// free region; the caller must not commit more than the free space.
    /// Previously committed bytes are unchanged.
    pub fn advance(&mut self, n: usize)
        requires
            old(self).wf(),
            old(self)@.len() + n <= old(self).spec_cap(),
        ensures
            final(self).wf(),
            final(self).spec_cap() == old(self).spec_cap(),
            final(self)@.len() == old(self)@.len() + n,
            final(self)@.take(old(self)@.len() as int) == old(self)@,
            final(self)@ == old(self).region().take(old(self)@.len() + n),
            final(self).region() == old(self).region(),
    {
        let c = self.raw.len();
        proof {
            assert(old(self)@.len() == old(self).size);
            assert(self.size + n <= c);
        }
        self.size = self.size + n;
        proof {
            assert(self@.take(old(self)@.len() as int) =~= old(self)@);
        }
    }

    /// Discards the first `n` committed bytes and shifts the remainder to
    /// offset 0.
    pub fn rotate_left(&mut self, n: usize)
        requires
            old(self).wf(),
            n <= old(self)@.len(),
        ensures
            final(self).wf(),
            final(self).spec_cap() == old(self).spec_cap(),
            final(self)@ == old(self)@.skip(n as int),
    {
        let ghost orig = *self;
        let m = self.size - n;
        let mut i: usize = 0;
        while i < m
            invariant
                orig.wf(),
                n <= orig.size,
                m == orig.size - n,
                i <= m,
                self.size == orig.size,
                self.raw@.len() == orig.raw@.len(),
                forall|t: int| 0 <= t < i ==> self.raw@[t] == orig.raw@[t + n],
                forall|t: int| i <= t < self.raw@.len() ==> self.raw@[t] == orig.raw@[t],
            decreases m - i,
        {
            let b = self.raw[i + n];
            self.raw.set(i, b);
            i += 1;
        }
        self.size = m;
        proof {
            assert(self@ =~= orig@.skip(n as int));
        }
    }

    /// Copies as many leading bytes of `buf` as fit into the free space and
    /// commits them; returns how many were copied. A short copy is not an
    /// error: the count is `min(free space, buf.len())`.
    pub fn copy_from(&mut self, buf: &[u8]) -> (r: usize)
        requires
            old(self).wf(),
        ensures
            final(self).wf(),
            final(self).spec_cap() == old(self).spec_cap(),
            r == vstd::math::min(
                old(self).spec_cap() - old(self)@.len(),
                buf@.len() as int,
            ),
            final(self)@ == old(self)@ + buf@.take(r as int),
    {
        let ghost orig = *self;
        let free = self.raw.len() - self.size;
        let n = if buf.len() < free {
            buf.len()
        } else {
            free
        };
        let mut j: usize = 0;
        while j < n
            invariant
                orig.wf(),
                orig.size + n <= orig.raw@.len(),
                orig.raw@.len() <= usize::MAX,
                n <= buf@.len(),
                j <= n,
                self.size == orig.size,
                self.raw@.len() == orig.raw@.len(),
                forall|t: int| 0 <= t < orig.size ==> self.raw@[t] == orig.raw@[t],
                forall|t: int| 0 <= t < j ==> self.raw@[orig.size + t] == buf@[t],
            decreases n - j,
        {
            self.raw.set(self.size + j, buf[j]);
            j += 1;
        }
        self.size = self.size + n;
        proof {
            assert(self@ =~= orig@ + buf@.take(n as int));
        }
        n
    }

    /// Builds a buffer pre-filled with `slice`, clamping the capacity up to
    /// at least the input length.
    pub fn from_slice(slice: &[u8], cap: usize) -> (r: Self)
        ensures
            r.wf(),
            r.spec_cap() == vstd::math::max(cap as int, slice@.len() as int),
            r@ == slice@,
    {
        let mut c = cap;
        if c < slice.len() {
            c = slice.len();
        }
        let mut buf = Self::new(c);
        buf.copy_from(slice);
        proof {
            assert(slice@.take(slice@.len() as int) =~= slice@);
        }
        buf
    }

    /// Takes ownership of `vec` as the committed bytes, growing the capacity
    /// to `cap` when `cap` exceeds the input length.
    pub fn from_vec(vec: Vec<u8>, cap: usize) -> (r: Self)
        ensures
            r.wf(),
            r@ == vec@,
            r.spec_cap() == vstd::math::max(cap as int, vec@.len() as int),
    {
        let ghost orig = vec@;
        let mut vec = vec;
        let mut cap = cap;
        if cap < vec.len() {
            cap = vec.len();
        }
        let size = vec.len();
        vec.resize(cap, 0u8);
        let r = Self { raw: vec, size };
        proof {
            assert(r@ =~= orig);
        }
        r
    }

    /// The committed bytes as an owned vector; the free space is dropped.
    pub fn to_vec(self) -> (r: Vec<u8>)
        requires
            self.wf(),
        ensures
            r@ == self@,
    {
        let BufferVec { raw: mut raw, size } = self;
        raw.truncate(size);
        raw
    }

    /// Whether the committed bytes end with `needle`.
    pub fn ends_with(&self, needle: &[u8]) -> (r: bool)
        requires
            self.wf(),
        ensures
            r == (needle@.len() <= self@.len()
                && self@.skip((self@.len() - needle@.len()) as int) == needle@),
    {
        if needle.len() > self.size {
            return false;
        }
        let off = self.size - needle.len();
        let ghost tail = self@.skip(off as int);
        let mut j: usize = 0;
        while j < needle.len()
            invariant
                self.wf(),
                needle@.len() <= self@.len(),
                off == self@.len() - needle@.len(),
                tail == self@.skip(off as int),
                j <= needle@.len(),
                forall|t: int| 0 <= t < j ==> tail[t] == needle@[t],
            decreases needle@.len() - j,
        {
            if self.raw[off + j] != needle[j] {
                proof {
                    assert(tail[j as int] != needle@[j as int]);
                }
                return false;
            }
            j += 1;
        }
        proof {
            assert(tail =~= needle@);
        }
        true
    }

    /// Grows or shrinks the region to `size` bytes; committed bytes past the
    /// new capacity are dropped.
    pub fn resize_cap(&mut self, size: usize)
        requires
            old(self).wf(),
        ensures
            final(self).wf(),
            final(self).spec_cap() == size,
            final(self)@ == old(self)@.take(
                vstd::math::min(old(self)@.len() as int, size as int),
            ),
    {
        self.raw.resize(size, 0u8);
        if self.size > self.raw.len() {
            self.size = self.raw.len();
        }
        proof {
            assert(self@ =~= old(self)@.take(
                vstd::math::min(old(self)@.len() as int, size as int),
            ));
        }
    }

    /// Applies the outcome of one source read: a nonempty chunk is committed
    /// whole (the caller hands in no more than the free space), an empty
    /// chunk is an unexpected end of stream, and a source error is handed
    /// back unchanged.
    pub fn commit_read(&mut self, chunk: Result<Vec<u8>, ErrorKind>) -> (r: Result<
        usize,
        ErrorKind,
    >)
        requires
            old(self).wf(),
            chunk matches Ok(v) ==> v@.len() <= old(self).spec_cap() - old(self)@.len(),
        ensures
            final(self).wf(),
            final(self).spec_cap() == old(self).spec_cap(),
            chunk matches Ok(v) ==> (v@.len() > 0 ==> r == Ok::<usize, ErrorKind>(
                v@.len() as usize,
            ) && final(self)@ == old(self)@ + v@) && (v@.len() == 0 ==> r == Err::<
                usize,
                ErrorKind,
            >(ErrorKind::UnexpectedEof) && final(self)@ == old(self)@),
            chunk matches Err(e) ==> r == Err::<usize, ErrorKind>(e) && final(self)@ == old(
                self,
            )@,
    {
        match chunk {
            Ok(v) => {
                if v.len() == 0 {
                    proof {
                        assert(self@.take(self@.len() as int) =~= self@);
                    }
                    return Err(ErrorKind::UnexpectedEof);
                }
                let n = self.copy_from(v.as_slice());
                proof {
                    assert(n == v@.len());
                    assert(v@.take(n as int) =~= v@);
                }
                Ok(n)
            },
            Err(e) => Err(e),
        }
    }

    /// One read attempt from `reader` into the free space: the bytes the
    /// source hands out are committed, in order, and their count returned. A
    /// read that yields nothing is an unexpected end of stream and fails; a
    /// failed read changes nothing. Previously committed bytes are never
    /// disturbed. Which error comes back for which chunk is fixed by
    /// `commit_read`.
    pub fn fill_with<R: ByteSource>(&mut self, reader: &mut R) -> (r: Result<usize, ErrorKind>)
        requires
            old(self).wf(),
        ensures
            final(self).wf(),
            final(self).spec_cap() == old(self).spec_cap(),
            old(reader).handed().is_prefix_of(final(reader).handed()),
            final(self)@ == old(self)@ + final(reader).handed().skip(
                old(reader).handed().len() as int,
            ),
            r matches Ok(n) ==> 0 < n <= old(self).spec_cap() - old(self)@.len()
                && final(self)@.len() == old(self)@.len() + n,
            final(self)@.take(old(self)@.len() as int) == old(self)@,
            r is Err ==> final(self)@ == old(self)@,
    {
        let free = self.cap() - self.len();
        let ghost h0 = reader.handed();
        let chunk = reader.read_once(free);
        proof {
            match &chunk {
                Ok(v) => {
                    assert(reader.handed().skip(h0.len() as int) =~= v@);
                },
                Err(_) => {
                    assert(reader.handed().skip(h0.len() as int) =~= Seq::<u8>::empty());
                },
            }
            assert(h0 =~= reader.handed().take(h0.len() as int));
        }
        let r = self.commit_read(chunk);
        proof {
            assert(self@ =~= old(self)@ + reader.handed().skip(h0.len() as int));
            assert(self@.take(old(self)@.len() as int) =~= old(self)@);
        }
        r
    }

    /// Reads from `reader` until the buffer is full, committing exactly the
    /// bytes the source hands out, in order; any failed read, or a read that
    /// yields nothing before the buffer is full, fails. Previously committed
    /// bytes are never disturbed, and an already full buffer needs no read
    /// and succeeds.
    pub fn fill_all_with<R: ByteSource>(&mut self, reader: &mut R) -> (r: Result<(), ErrorKind>)
        requires
            old(self).wf(),
        ensures
            final(self).wf(),
            final(self).spec_cap() == old(self).spec_cap(),
            old(self)@.len() == old(self).spec_cap() ==> r is Ok,
            r is Ok ==> final(self)@.len() == final(self).spec_cap(),
            old(reader).handed().is_prefix_of(final(reader).handed()),
            final(self)@ == old(self)@ + final(reader).handed().skip(
                old(reader).handed().len() as int,
            ),
            final(self)@.take(old(self)@.len() as int) == old(self)@,
    {
        let ghost h0 = reader.handed();
        proof {
            assert(self@.take(self@.len() as int) =~= self@);
            assert(self@ =~= self@ + reader.handed().skip(h0.len() as int));
        }
        while !self.is_full()
            invariant
                h0 == old(reader).handed(),
                self.wf(),
                self.spec_cap() == old(self).spec_cap(),
                old(self)@.len() <= self@.len(),
                h0.is_prefix_of(reader.handed()),
                self@ == old(self)@ + reader.handed().skip(h0.len() as int),
                self@.take(old(self)@.len() as int) == old(self)@,
            decreases self.spec_cap() - self@.len(),
        {
            let ghost prev = self@;
            let ghost hprev = reader.handed();
            match self.fill_with(reader) {
                Ok(_) => {},
                Err(e) => {
                    proof {
                        lemma_handed_compose(h0, hprev, reader.handed());
                        assert(self@ =~= old(self)@ + reader.handed().skip(h0.len() as int));
                    }
                    return Err(e);
                },
            }
            proof {
                lemma_handed_compose(h0, hprev, reader.handed());
                assert(self@ =~= old(self)@ + reader.handed().skip(h0.len() as int));
                assert(self@.take(old(self)@.len() as int) =~= prev.take(
                    old(self)@.len() as int,
                ));
            }
        }
        Ok(())
    }

    /// Merges a list of buffers into one whose capacity is the sum of the
    /// capacities and whose committed bytes are the concatenation, in order,
    /// of the committed bytes of the parts.
    pub fn from_parts(list: Vec<BufferVec>) -> (r: Self)
        requires
            seg_all_wf(list@),
            total_cap(list@) <= usize::MAX,
        ensures
            r.wf(),
            r.spec_cap() == total_cap(list@),
            r@ == seg_bytes(list@),
    {
        let mut cap: usize = 0;
        let mut i: usize = 0;
        while i < list.len()
            invariant
                seg_all_wf(list@),
                total_cap(list@) <= usize::MAX,
                i <= list@.len(),
                cap == total_cap(list@.take(i as int)),
            decreases list@.len() - i,
        {
            proof {
                lemma_take_succ_cap(list@, i as int);
                lemma_total_cap_take_le(list@, i as int + 1);
            }
            cap = cap + list[i].cap();
            i += 1;
        }
        proof {
            assert(list@.take(list@.len() as int) =~= list@);
        }
        let mut buf = Self::new(cap);
        let mut i: usize = 0;
        while i < list.len()
            invariant
                seg_all_wf(list@),
                total_cap(list@) <= usize::MAX,
                i <= list@.len(),
                buf.wf(),
                buf.spec_cap() == total_cap(list@),
                buf@ == seg_bytes(list@.take(i as int)),
            decreases list@.len() - i,
        {
            proof {
                lemma_take_succ_bytes(list@, i as int);
                lemma_take_succ_cap(list@, i as int);
                lemma_seg_bytes_le_cap(list@.take(i as int + 1));
                lemma_total_cap_take_le(list@, i as int + 1);
            }
            buf.copy_from(list[i].read());
            proof {
                assert(buf@ =~= seg_bytes(list@.take(i as int + 1)));
            }
            i += 1;
        }
        proof {
            assert(list@.take(list@.len() as int) =~= list@);
        }
        buf
    }

    /// Moves the committed bytes into `target` (as far as `target`'s free
    /// space allows) and clears this buffer.
    pub fn move_to(&mut self, target: &mut BufferVec)
        requires
            old(self).wf(),
            old(target).wf(),
        ensures
            final(self).wf(),
            final(target).wf(),
            final(self)@ == Seq::<u8>::empty(),
            final(self).spec_cap() == old(self).spec_cap(),
            final(target).spec_cap() == old(target).spec_cap(),
            final(target)@ == old(target)@ + old(self)@.take(vstd::math::min(
                old(target).spec_cap() - old(target)@.len(),
                old(self)@.len() as int,
            )),
    {
        target.copy_from(self.read());
        self.clear();
    }
}

/// The bytes a source hands out across two steps compose: what arrived
/// after the first point is what had arrived by the second plus what
/// followed it.
proof fn lemma_handed_compose(h0: Seq<u8>, h1: Seq<u8>, h2: Seq<u8>)
    requires
        h0.is_prefix_of(h1),
        h1.is_prefix_of(h2),
    ensures
        h0.is_prefix_of(h2),
        h2.skip(h0.len() as int) == h1.skip(h0.len() as int) + h2.skip(h1.len() as int),
{
    assert(h2.skip(h0.len() as int) =~= h1.skip(h0.len() as int) + h2.skip(h1.len() as int));
    assert(h0 =~= h2.take(h0.len() as int));
}

/// The committed bytes are exactly the prefix of the backing region.
pub proof fn lemma_view_is_region_prefix(b: BufferVec)
    requires
        b.wf(),
    ensures
        b@ == b.region().take(b@.len() as int),
{
    assert(b@ =~= b.region().take(b@.len() as int));
}

/// A deterministic byte source for exercising the fill paths: a scripted
/// list of outcomes, consumed one per read attempt, each `Ok` chunk clipped
/// to what the reader asked for. Once the script is exhausted every attempt
/// yields nothing, which the fill paths treat as end of stream.
pub struct ScriptedSource {
    script: Vec<Result<Vec<u8>, ErrorKind>>,
    at: usize,
    given: Ghost<Seq<u8>>,
}

impl ScriptedSource {
    /// The scripted outcomes not yet consumed.
    pub closed spec fn remaining(&self) -> Seq<Result<Vec<u8>, ErrorKind>> {
        if self.at <= self.script@.len() {
            self.script@.skip(self.at as int)
        } else {
            Seq::<Result<Vec<u8>, ErrorKind>>::empty()
        }
    }

    pub fn new(script: Vec<Result<Vec<u8>, ErrorKind>>) -> (r: Self)
        ensures
            r.handed() == Seq::<u8>::empty(),
            r.remaining() == script@,
    {
        let r = Self { script, at: 0, given: Ghost(Seq::empty()) };
        proof {
            assert(r.remaining() =~= r.script@);
        }
        r
    }
}

impl ByteSource for ScriptedSource {
    /// The clipped chunks handed out so far, concatenated.
    closed spec fn handed(&self) -> Seq<u8> {
        self.given@
    }

    /// Consumes one scripted outcome per attempt: an `Ok` chunk is handed
    /// out clipped to the `max` asked for, an `Err` step reports that kind;
    /// past the script's end every attempt yields nothing.
    fn read_once(&mut self, max: usize) -> (r: Result<Vec<u8>, ErrorKind>)
        ensures
            old(self).remaining().len() > 0 ==> final(self).remaining() == old(
                self,
            ).remaining().drop_first() && (old(self).remaining()[0] matches Ok(c) ==> (
            r matches Ok(v) && v@ == c@.take(vstd::math::min(c@.len() as int, max as int))))
                && (old(self).remaining()[0] matches Err(k) ==> r == Err::<Vec<u8>, ErrorKind>(k)),
            old(self).remaining().len() == 0 ==> final(self).remaining().len() == 0 && (
            r matches Ok(v) && v@.len() == 0),
    {
        if self.at < self.script.len() {
            let i = self.at;
            self.at = i + 1;
            proof {
                assert(old(self).remaining()[0] == self.script@[i as int]);
                assert(self.remaining() =~= old(self).remaining().drop_first());
            }
            match &self.script[i] {
                Ok(chunk) => {
                    let m = if chunk.len() < max {
                        chunk.len()
                    } else {
                        max
                    };
                    let mut out: Vec<u8> = Vec::new();
                    let mut j: usize = 0;
                    while j < m
                        invariant
                            j <= m,
                            m <= max,
                            m <= chunk@.len(),
                            out@ == chunk@.take(j as int),
                        decreases m - j,
                    {
                        out.push(chunk[j]);
                        proof {
                            assert(out@ =~= chunk@.take(j as int + 1));
                        }
                        j += 1;
                    }
                    self.given = Ghost(self.given@ + out@);
                    Ok(out)
                },
                Err(e) => Err(*e),
            }
        } else {
            let out: Vec<u8> = Vec::new();
            proof {
                assert(self.given@ =~= self.given@ + out@);
            }
            Ok(out)
        }
    }
}

/// A well-formed buffer never holds more committed bytes than its capacity.
pub proof fn lemma_wf_len_le_cap(b: BufferVec)
    requires
        b.wf(),
    ensures
        b@.len() <= b.spec_cap(),
{
}

/// Sum of the capacities of a list of buffers.
pub open spec fn total_cap(segs: Seq<BufferVec>) -> int
    decreases segs.len(),
{
    if segs.len() == 0 {
        0
    } else {
        segs[0].spec_cap() + total_cap(segs.drop_first())
    }
}

/// Concatenation, head first, of the committed bytes of a list of buffers.
pub open spec fn seg_bytes(segs: Seq<BufferVec>) -> Seq<u8>
    decreases segs.len(),
{
    if segs.len() == 0 {
        Seq::<u8>::empty()
    } else {
        segs[0]@ + seg_bytes(segs.drop_first())
    }
}

/// Every buffer in the list is well-formed.
pub open spec fn seg_all_wf(segs: Seq<BufferVec>) -> bool {
    forall|i: int| 0 <= i < segs.len() ==> (#[trigger] segs[i]).wf()
}

pub proof fn lemma_total_cap_snoc(segs: Seq<BufferVec>, b: BufferVec)
    ensures
        total_cap(segs.push(b)) == total_cap(segs) + b.spec_cap(),
    decreases segs.len(),
{
    reveal_with_fuel(total_cap, 3);
    if segs.len() == 0 {
        assert(segs.push(b)[0] == b);
        assert(segs.push(b).drop_first() =~= Seq::<BufferVec>::empty());
    } else {
        assert(segs.push(b)[0] == segs[0]);
        assert(segs.push(b).drop_first() =~= segs.drop_first().push(b));
        lemma_total_cap_snoc(segs.drop_first(), b);
    }
}

pub proof fn lemma_seg_bytes_snoc(segs: Seq<BufferVec>, b: BufferVec)
    ensures
        seg_bytes(segs.push(b)) == seg_bytes(segs) + b@,
    decreases segs.len(),
{
    reveal_with_fuel(seg_bytes, 3);
    if segs.len() == 0 {
        assert(segs.push(b)[0] == b);
        assert(segs.push(b).drop_first() =~= Seq::<BufferVec>::empty());
        assert(seg_bytes(segs.push(b)) =~= seg_bytes(segs) + b@);
    } else {
        assert(segs.push(b)[0] == segs[0]);
        assert(segs.push(b).drop_first() =~= segs.drop_first().push(b));
        lemma_seg_bytes_snoc(segs.drop_first(), b);
        assert(seg_bytes(segs.push(b)) =~= seg_bytes(segs) + b@);
    }
}

proof fn lemma_take_succ_cap(segs: Seq<BufferVec>, i: int)
    requires
        0 <= i < segs.len(),
    ensures
        total_cap(segs.take(i + 1)) == total_cap(segs.take(i)) + segs[i].spec_cap(),
{
    assert(segs.take(i + 1) =~= segs.take(i).push(segs[i]));
    lemma_total_cap_snoc(segs.take(i), segs[i]);
}

pub proof fn lemma_take_succ_bytes(segs: Seq<BufferVec>, i: int)
    requires
        0 <= i < segs.len(),
    ensures
        seg_bytes(segs.take(i + 1)) == seg_bytes(segs.take(i)) + segs[i]@,
{
    assert(segs.take(i + 1) =~= segs.take(i).push(segs[i]));
    lemma_seg_bytes_snoc(segs.take(i), segs[i]);
}

/// Splitting a segment list anywhere splits its bytes there.
pub proof fn lemma_seg_bytes_split(segs: Seq<BufferVec>, j: int)
    requires
        0 <= j <= segs.len(),
    ensures
        seg_bytes(segs) == seg_bytes(segs.take(j)) + seg_bytes(segs.skip(j)),
    decreases segs.len() - j,
{
    if j == segs.len() {
        assert(segs.take(j) =~= segs);
        assert(segs.skip(j) =~= Seq::<BufferVec>::empty());
        assert(seg_bytes(segs) =~= seg_bytes(segs.take(j)) + seg_bytes(segs.skip(j)));
    } else {
        lemma_seg_bytes_split(segs, j + 1);
        lemma_take_succ_bytes(segs, j);
        assert(segs.skip(j)[0] == segs[j]);
        assert(segs.skip(j).drop_first() =~= segs.skip(j + 1));
        assert(seg_bytes(segs) =~= seg_bytes(segs.take(j)) + seg_bytes(segs.skip(j)));
    }
}

pub proof fn lemma_total_cap_take_le(segs: Seq<BufferVec>, j: int)
    requires
        0 <= j <= segs.len(),
    ensures
        total_cap(segs.take(j)) <= total_cap(segs),
    decreases segs.len() - j,
{
    if j == segs.len() {
        assert(segs.take(j) =~= segs);
    } else {
        lemma_take_succ_cap(segs, j);
        lemma_total_cap_take_le(segs, j + 1);
    }
}

/// An append-only log of owned chunks, each the copy of a pushed slice,
/// with a cached running total of the items over all chunks.
pub struct ExpandVec<T> {
    raw: Vec<Vec<T>>,
    size: usize,
}

impl<T> View for ExpandVec<T> {
    type V = Seq<Seq<T>>;

    /// The chunks, oldest first.
    closed spec fn view(&self) -> Seq<Seq<T>> {
        self.raw@.map_values(|v: Vec<T>| v@)
    }
}

/// Sum of the lengths of the chunks.
pub open spec fn total_len<T>(chunks: Seq<Seq<T>>) -> int
    decreases chunks.len(),
{
    if chunks.len() == 0 {
        0
    } else {
        chunks[0].len() + total_len(chunks.drop_first())
    }
}

/// The chunks flattened into one sequence, in push order.
pub open spec fn concat_all<T>(chunks: Seq<Seq<T>>) -> Seq<T>
    decreases chunks.len(),
{
    if chunks.len() == 0 {
        Seq::<T>::empty()
    } else {
        chunks[0] + concat_all(chunks.drop_first())
    }
}

pub proof fn lemma_total_len_nonneg<T>(chunks: Seq<Seq<T>>)
    ensures
        total_len(chunks) >= 0,
    decreases chunks.len(),
{
    if chunks.len() > 0 {
        lemma_total_len_nonneg(chunks.drop_first());
    }
}

pub proof fn lemma_total_len_snoc<T>(chunks: Seq<Seq<T>>, c: Seq<T>)
    ensures
        total_len(chunks.push(c)) == total_len(chunks) + c.len(),
    decreases chunks.len(),
{
    reveal_with_fuel(total_len, 3);
    if chunks.len() == 0 {
        assert(chunks.push(c)[0] == c);
        assert(chunks.push(c).drop_first() =~= Seq::<Seq<T>>::empty());
    } else {
        assert(chunks.push(c)[0] == chunks[0]);
        assert(chunks.push(c).drop_first() =~= chunks.drop_first().push(c));
        lemma_total_len_snoc(chunks.drop_first(), c);
    }
}

pub proof fn lemma_concat_all_snoc<T>(chunks: Seq<Seq<T>>, c: Seq<T>)
    ensures
        concat_all(chunks.push(c)) == concat_all(chunks) + c,
    decreases chunks.len(),
{
    reveal_with_fuel(concat_all, 3);
    if chunks.len() == 0 {
        assert(chunks.push(c)[0] == c);
        assert(chunks.push(c).drop_first() =~= Seq::<Seq<T>>::empty());
        assert(concat_all(chunks.push(c)) =~= concat_all(chunks) + c);
    } else {
        assert(chunks.push(c)[0] == chunks[0]);
        assert(chunks.push(c).drop_first() =~= chunks.drop_first().push(c));
        lemma_concat_all_snoc(chunks.drop_first(), c);
        assert(concat_all(chunks.push(c)) =~= concat_all(chunks) + c);
    }
}

/// Flattening a chunk log yields exactly as many items as the sum of the
/// lengths of the pushed chunks.
pub proof fn lemma_concat_len<T>(chunks: Seq<Seq<T>>)
    ensures
        concat_all(chunks).len() == total_len(chunks),
    decreases chunks.len(),
{
    if chunks.len() > 0 {
        lemma_concat_len(chunks.drop_first());
    }
}

proof fn lemma_concat_take_succ<T>(chunks: Seq<Seq<T>>, i: int)
    requires
        0 <= i < chunks.len(),
    ensures
        concat_all(chunks.take(i + 1)) == concat_all(chunks.take(i)) + chunks[i],
{
    assert(chunks.take(i + 1) =~= chunks.take(i).push(chunks[i]));
    lemma_concat_all_snoc(chunks.take(i), chunks[i]);
}

impl<T: Copy> ExpandVec<T> {
    /// The cached total matches the chunks held.
    pub closed spec fn wf(&self) -> bool {
        self.size == total_len(self@)
    }

    /// An empty log.
    pub fn new() -> (r: Self)
        ensures
            r.wf(),
            r@ == Seq::<Seq<T>>::empty(),
    {
        let r = Self { raw: Vec::new(), size: 0 };
        proof {
            assert(r@ =~= Seq::<Seq<T>>::empty());
        }
        r
    }

    /// Total number of items over all chunks.
    pub fn len(&self) -> (r: usize)
        requires
            self.wf(),
        ensures
            r == total_len(self@),
    {
        self.size
    }

    /// The most recently pushed chunk, if any.
    pub fn last_msg(&self) -> (r: Option<&[T]>)
        ensures
            (r is Some) == (self@.len() > 0),
            r matches Some(s) ==> s@ == self@.last(),
    {
        if self.raw.len() == 0 {
            None
        } else {
            Some(self.raw[self.raw.len() - 1].as_slice())
        }
    }

    /// Removes and returns the most recently pushed chunk, if any.
    pub fn pop(&mut self) -> (r: Option<Vec<T>>)
        requires
            old(self).wf(),
        ensures
            final(self).wf(),
            old(self)@.len() == 0 ==> r is None && final(self)@ == old(self)@,
            old(self)@.len() > 0 ==> final(self)@ == old(self)@.drop_last()
                && (r matches Some(v) && v@ == old(self)@.last()),
    {
        match self.raw.pop() {
            None => None,
            Some(v) => {
                proof {
                    assert(old(self)@ =~= old(self)@.drop_last().push(old(self)@.last()));
                    lemma_total_len_snoc(old(self)@.drop_last(), old(self)@.last());
                    lemma_total_len_nonneg(old(self)@.drop_last());
                    assert(v@ == old(self)@.last());
                    assert(self@ =~= old(self)@.drop_last());
                }
                self.size = self.size - v.len();
                Some(v)
            },
        }
    }

    /// Appends a copy of `data` as a new chunk.
    pub fn push(&mut self, data: &[T])
        requires
            old(self).wf(),
            total_len(old(self)@) + data@.len() <= usize::MAX,
        ensures
            final(self).wf(),
            final(self)@ == old(self)@.push(data@),
    {
        let mut chunk: Vec<T> = Vec::new();
        let mut j: usize = 0;
        while j < data.len()
            invariant
                j <= data@.len(),
                chunk@ == data@.take(j as int),
            decreases data@.len() - j,
        {
            chunk.push(data[j]);
            proof {
                assert(chunk@ =~= data@.take(j as int + 1));
            }
            j += 1;
        }
        proof {
            assert(chunk@ =~= data@);
        }
        self.size = self.size + data.len();
        self.raw.push(chunk);
        proof {
            assert(self@ =~= old(self)@.push(data@));
            lemma_total_len_snoc(old(self)@, data@);
        }
    }

    /// Appends every chunk, in push order, to `data`, then resets the log to
    /// empty. The destination's capacity is reserved up front.
    pub fn move_to(&mut self, data: &mut Vec<T>)
        requires
            old(self).wf(),
        ensures
            final(self).wf(),
            final(self)@ == Seq::<Seq<T>>::empty(),
            final(data)@ == old(data)@ + concat_all(old(self)@),
    {
        data.reserve(self.size);
        let ghost orig = self@;
        let ghost dorig = data@;
        let mut i: usize = 0;
        while i < self.raw.len()
            invariant
                self@ == orig,
                i <= orig.len(),
                data@ == dorig + concat_all(orig.take(i as int)),
            decreases orig.len() - i,
        {
            let clen = self.raw[i].len();
            let ghost prev = data@;
            let mut j: usize = 0;
            while j < clen
                invariant
                    self@ == orig,
                    i < orig.len(),
                    clen == orig[i as int].len(),
                    j <= clen,
                    data@ == prev + orig[i as int].take(j as int),
                decreases clen - j,
            {
                data.push(self.raw[i][j]);
                proof {
                    assert(data@ =~= prev + orig[i as int].take(j as int + 1));
                }
                j += 1;
            }
            proof {
                assert(orig[i as int].take(clen as int) =~= orig[i as int]);
                lemma_concat_take_succ(orig, i as int);
            }
            i += 1;
        }
        proof {
            assert(orig.take(orig.len() as int) =~= orig);
        }
        self.raw = Vec::new();
        self.size = 0;
        proof {
            assert(self@ =~= Seq::<Seq<T>>::empty());
        }
    }
}

pub proof fn lemma_seg_bytes_le_cap(segs: Seq<BufferVec>)
    requires
        seg_all_wf(segs),
    ensures
        seg_bytes(segs).len() <= total_cap(segs),
    decreases segs.len(),
{
    if segs.len() > 0 {
        assert(seg_all_wf(segs.drop_first())) by {
            assert(forall|i: int|
                0 <= i < segs.drop_first().len() ==> segs.drop_first()[i] == segs[i + 1]);
        }
        lemma_seg_bytes_le_cap(segs.drop_first());
        assert(segs[0].wf());
    }
}

} // verus!
