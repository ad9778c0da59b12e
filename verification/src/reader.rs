//! A buffered reader over a chunk source: it pulls chunks on demand into a
//! growable byte buffer and hands bytes out from the front, preserving the
//! exact arrival order with no loss or duplication.

use vstd::prelude::*;

use crate::source::ChunkEvent;
use crate::source::ChunkSource;
use crate::source::PollChunk;
use crate::source::all_gives;
use crate::source::concat_chunks;
use crate::source::event_chunks;
use crate::source::lemma_all_gives_bytes;
use crate::source::lemma_concat_chunks_take_succ;
use crate::source::prompt_bytes;

verus! {

/// Default initial buffer capacity, to amortize reallocation.
const BUFSIZE: usize = 8 * 1024;

/// Outcome of an operation that fills the buffer but hands nothing out.
pub enum PollStatus<E> {
    /// The fill goal was reached, or the source is exhausted.
    Ready,
    /// The source has no chunk ready yet; retry later. No data is lost.
    Pending,
    /// The source failed. Bytes received before the failure are kept.
    Failed(E),
}

/// Outcome of a read: bytes from the front of the stream, a would-block
/// signal, or a source failure.
pub enum ReadPoll<E> {
    /// Bytes removed from the front of the stream. An empty vector means
    /// genuine end of input (when more than zero bytes were asked for).
    Data(Vec<u8>),
    /// Nothing is buffered and the source has no chunk ready yet.
    Pending,
    /// The source failed. Bytes received before the failure are kept.
    Failed(E),
}

/// A growable byte buffer over a chunk source, with an exhaustion flag
/// that is set once the source reports its end and is never reset.
pub struct BytesStream<S> {
    bytes: Vec<u8>,
    stream: S,
    stream_done: bool,
}

impl<S: ChunkSource> BytesStream<S> {
    /// The bytes currently buffered and not yet consumed.
    pub closed spec fn buffered(&self) -> Seq<u8> {
        self.bytes@
    }

    /// Whether the source has reported exhaustion.
    pub closed spec fn done(&self) -> bool {
        self.stream_done
    }

    /// The poll outcomes the source will still produce.
    pub closed spec fn events(&self) -> Seq<ChunkEvent> {
        self.stream.events()
    }

    /// The chunks the source will still yield before any failure.
    pub open spec fn upcoming(&self) -> Seq<Seq<u8>> {
        event_chunks(self.events())
    }

    /// The wrapped source itself.
    pub closed spec fn source(&self) -> S {
        self.stream
    }

    /// Every byte that can still be read: the buffer followed by all
    /// chunks the source will yield, in order.
    pub open spec fn total(&self) -> Seq<u8> {
        self.buffered() + concat_chunks(self.upcoming())
    }

    /// Once the source has reported exhaustion it is never polled again,
    /// so no poll outcome and no chunk remains.
    pub open spec fn wf(&self) -> bool {
        self.done() ==> (self.events().len() == 0 && self.upcoming().len() == 0)
    }

    /// Wrap a source with an empty buffer; no chunk is fetched yet.
    pub fn new(stream: S) -> (r: Self)
        ensures
            r.buffered() == Seq::<u8>::empty(),
            !r.done(),
            r.source() == stream,
            r.events() == stream.events(),
            r.upcoming() == event_chunks(stream.events()),
            r.total() == concat_chunks(event_chunks(stream.events())),
            r.wf(),
    {
        let r = BytesStream { bytes: Vec::with_capacity(BUFSIZE), stream, stream_done: false };
        proof {
            assert(r.total() =~= concat_chunks(event_chunks(r.stream.events())));
        }
        r
    }

    /// True iff nothing is buffered and the source is exhausted: there is
    /// provably no more data, ever.
    pub fn is_empty(&self) -> (r: bool)
        ensures
            r == (self.buffered().len() == 0 && self.done()),
    {
        self.bytes.is_empty() && self.stream_done
    }

    /// Whether the source has reported exhaustion.
    pub fn is_exhausted(&self) -> (r: bool)
        ensures
            r == self.done(),
    {
        self.stream_done
    }

    /// Consume the reader, handing back the unconsumed buffered bytes and
    /// the source, without copying the buffer.
    pub fn into_parts(self) -> (r: (Vec<u8>, S))
        ensures
            r.0@ == self.buffered(),
            r.1 == self.source(),
    {
        let BytesStream { bytes, stream, stream_done: _ } = self;
        (bytes, stream)
    }

    /// A read-only view of the currently buffered bytes.
    pub fn peek(&self) -> (r: &[u8])
        ensures
            r@ == self.buffered(),
    {
        self.bytes.as_slice()
    }

    /// Insert `bytes` at the front of the buffer, so they are the next
    /// bytes returned by subsequent reads. The buffer is owned, so the
    /// incoming vector is grown in place and the old buffer contents are
    /// appended to its tail; no byte is lost or reordered.
    pub fn prepend_bytes(&mut self, bytes: Vec<u8>)
        ensures
            final(self).buffered() == bytes@ + old(self).buffered(),
            final(self).done() == old(self).done(),
            final(self).events() == old(self).events(),
            final(self).upcoming() == old(self).upcoming(),
            final(self).total() == bytes@ + old(self).total(),
            old(self).wf() ==> final(self).wf(),
    {
        let mut b = bytes;
        b.append(&mut self.bytes);
        core::mem::swap(&mut self.bytes, &mut b);
        proof {
            assert(final(self).total() =~= bytes@ + old(self).total());
        }
    }

    /// Remove exactly `amt` bytes from the front of the buffer. The caller
    /// must have observed at least `amt` buffered bytes via `peek`.
    pub fn consume(&mut self, amt: usize)
        requires
            amt <= old(self).buffered().len(),
        ensures
            final(self).buffered() == old(self).buffered().skip(amt as int),
            final(self).done() == old(self).done(),
            final(self).events() == old(self).events(),
            final(self).upcoming() == old(self).upcoming(),
            old(self).wf() ==> final(self).wf(),
    {
        let tail = self.bytes.split_off(amt);
        self.bytes = tail;
    }

    /// Poll the source once: append its next chunk to the buffer, or
    /// record exhaustion. When the source is already exhausted this does
    /// nothing — the source is never polled again.
    pub fn poll_buffer(&mut self) -> (r: PollStatus<S::Error>)
        requires
            old(self).wf(),
        ensures
            final(self).wf(),
            old(self).done() ==> final(self).done(),
            old(self).done() ==> r is Ready,
            old(self).buffered().is_prefix_of(final(self).buffered()),
            (r matches PollStatus::Pending ==> final(self).buffered() == old(self).buffered()
                && final(self).done() == old(self).done()
                && final(self).upcoming() == old(self).upcoming()
                && old(self).events().len() > 0 && old(self).events()[0] is Wait
                && final(self).events() == old(self).events().drop_first()),
            (r matches PollStatus::Failed(e) ==> final(self).buffered() == old(self).buffered()
                && final(self).done() == old(self).done()
                && old(self).events().len() > 0 && old(self).events()[0] is Fail
                && final(self).events() == old(self).events().drop_first()),
            (r matches PollStatus::Ready ==> final(self).total() == old(self).total()
                && (old(self).done() ==> final(self).buffered() == old(self).buffered()
                    && final(self).upcoming() == old(self).upcoming()
                    && final(self).events() == old(self).events())
                && (!old(self).done() ==> (
                    (final(self).done() && old(self).events().len() == 0
                        && old(self).upcoming().len() == 0
                        && final(self).buffered() == old(self).buffered()
                        && final(self).events() == old(self).events())
                    || (!final(self).done() && old(self).upcoming().len() > 0
                        && old(self).events().len() > 0
                        && old(self).events()[0] == ChunkEvent::Give(old(self).upcoming()[0])
                        && final(self).buffered() == old(self).buffered()
                            + old(self).upcoming()[0]
                        && final(self).upcoming() == old(self).upcoming().drop_first()
                        && final(self).events() == old(self).events().drop_first())))),
    {
        if self.stream_done {
            return PollStatus::Ready;
        }
        match self.stream.poll_chunk() {
            PollChunk::Chunk(c) => {
                let mut c = c;
                let ghost chunk = c@;
                self.bytes.append(&mut c);
                proof {
                    assert(old(self).upcoming()
                        == seq![chunk] + event_chunks(final(self).events()));
                    assert(old(self).upcoming()[0] == chunk);
                    assert(final(self).upcoming() =~= old(self).upcoming().drop_first());
                    assert(concat_chunks(old(self).upcoming())
                        == chunk + concat_chunks(old(self).upcoming().drop_first()));
                    assert((old(self).buffered() + chunk)
                            + concat_chunks(old(self).upcoming().drop_first())
                        =~= old(self).total());
                }
                PollStatus::Ready
            },
            PollChunk::Pending => {
                proof {
                    assert(final(self).upcoming() =~= old(self).upcoming());
                }
                PollStatus::Pending
            },
            PollChunk::Done => {
                self.stream_done = true;
                proof {
                    assert(old(self).upcoming() =~= Seq::<Seq<u8>>::empty());
                }
                PollStatus::Ready
            },
            PollChunk::Failed(e) => PollStatus::Failed(e),
        }
    }

    /// Pull chunks one at a time until at least `len` bytes are buffered,
    /// the source is exhausted, or the source has no chunk ready. No
    /// already-buffered byte is lost in any outcome; the buffer only ever
    /// grows by whole upcoming chunks, in order. A source whose next poll
    /// outcomes deliver `len` bytes promptly must reach the goal, and one
    /// that only delivers must run to exhaustion with everything buffered.
    pub fn poll_buffer_until(&mut self, len: usize) -> (r: PollStatus<S::Error>)
        requires
            old(self).wf(),
        ensures
            final(self).wf(),
            old(self).done() ==> final(self).done(),
            old(self).buffered().is_prefix_of(final(self).buffered()),
            (r matches PollStatus::Ready ==> final(self).total() == old(self).total()
                && (final(self).buffered().len() >= len || final(self).done())),
            (r matches PollStatus::Pending ==> final(self).total() == old(self).total()
                && final(self).buffered().len() < len && !final(self).done()),
            ((r is Ready || r is Pending) ==> exists|j: int| 0 <= j <= old(self).upcoming().len()
                && final(self).buffered() == old(self).buffered()
                    + concat_chunks(#[trigger] old(self).upcoming().take(j))
                && final(self).upcoming() == old(self).upcoming().skip(j)),
            (r matches PollStatus::Failed(e) ==> final(self).done() == old(self).done()
                && exists|j: int| 0 <= j <= old(self).upcoming().len()
                    && final(self).buffered() == old(self).buffered()
                        + concat_chunks(#[trigger] old(self).upcoming().take(j))),
            (old(self).buffered().len() >= len || old(self).done() ==> (
                r matches PollStatus::Ready
                && final(self).buffered() == old(self).buffered()
                && final(self).upcoming() == old(self).upcoming()
                && final(self).events() == old(self).events()
                && final(self).done() == old(self).done())),
            (old(self).buffered().len() + prompt_bytes(old(self).events()) >= len ==> (
                r matches PollStatus::Ready && final(self).buffered().len() >= len)),
            (all_gives(old(self).events())
                && old(self).buffered().len() + prompt_bytes(old(self).events()) < len ==> (
                r matches PollStatus::Ready && final(self).done()
                && final(self).buffered().len() == old(self).buffered().len()
                    + prompt_bytes(old(self).events()))),
            all_gives(old(self).events()) ==> all_gives(final(self).events()),
    {
        let ghost b0 = old(self).buffered();
        let ghost u0 = old(self).upcoming();
        let ghost e0 = old(self).events();
        let ghost mut j: int = 0;
        while self.bytes.len() < len && !self.stream_done
            invariant
                b0 == old(self).buffered(),
                u0 == old(self).upcoming(),
                e0 == old(self).events(),
                self.wf(),
                old(self).done() ==> self.done(),
                0 <= j <= u0.len(),
                self.buffered() == b0 + concat_chunks(u0.take(j)),
                self.upcoming() == u0.skip(j),
                self.total() == old(self).total(),
                self.buffered().len() + prompt_bytes(self.events())
                    == b0.len() + prompt_bytes(e0),
                all_gives(e0) ==> all_gives(self.events()),
                (b0.len() >= len || old(self).done() ==> self.buffered() == b0
                    && self.upcoming() == u0 && self.events() == e0
                    && self.done() == old(self).done()),
            decreases u0.len() - j + (if self.stream_done { 0int } else { 1int }),
        {
            let ghost prev = *self;
            match self.poll_buffer() {
                PollStatus::Ready => {
                    proof {
                        if !self.stream_done {
                            assert(prev.upcoming().len() > 0);
                            assert(u0.skip(j)[0] == u0[j]);
                            lemma_concat_chunks_take_succ(u0, j);
                            assert(self.buffered() =~= b0 + concat_chunks(u0.take(j + 1)));
                            assert(u0.skip(j).drop_first() =~= u0.skip(j + 1));
                            j = j + 1;
                        }
                    }
                },
                PollStatus::Pending => {
                    proof {
                        assert(self.buffered().take(b0.len() as int) =~= b0);
                        assert(prompt_bytes(prev.events()) == 0);
                    }
                    return PollStatus::Pending;
                },
                PollStatus::Failed(e) => {
                    proof {
                        assert(0 <= j <= u0.len()
                            && self.buffered() == b0 + concat_chunks(u0.take(j)));
                        assert(self.buffered().take(b0.len() as int) =~= b0);
                        assert(prompt_bytes(prev.events()) == 0);
                    }
                    return PollStatus::Failed(e);
                },
            }
        }
        proof {
            assert(self.buffered().take(b0.len() as int) =~= b0);
            if self.stream_done {
                assert(prompt_bytes(self.events()) == 0);
            }
        }
        PollStatus::Ready
    }

    /// Remove up to `max_len` bytes from the front of the buffer.
    fn take_front(&mut self, max_len: usize) -> (v: Vec<u8>)
        ensures
            v@.len() == if max_len <= old(self).buffered().len() {
                max_len as int
            } else {
                old(self).buffered().len() as int
            },
            v@ == old(self).buffered().take(v@.len() as int),
            final(self).buffered() == old(self).buffered().skip(v@.len() as int),
            final(self).done() == old(self).done(),
            final(self).events() == old(self).events(),
            final(self).upcoming() == old(self).upcoming(),
    {
        let k: usize = if max_len <= self.bytes.len() { max_len } else { self.bytes.len() };
        let mut tail = self.bytes.split_off(k);
        core::mem::swap(&mut self.bytes, &mut tail);
        proof {
            assert(tail@ =~= old(self).buffered().take(k as int));
            assert(final(self).buffered() =~= old(self).buffered().skip(k as int));
        }
        tail
    }

    /// Try to fill the buffer to `max_len` bytes, then remove and return
    /// up to `max_len` bytes from the front. Partial data (even fewer than
    /// requested) is returned whenever any byte is available; an empty
    /// result is reserved for genuine end of input; would-block is
    /// reported only when nothing is buffered and the source is not
    /// ready. A source that delivers the requested bytes promptly forces
    /// a full read, and one that only delivers forces everything out.
    pub fn read(&mut self, max_len: usize) -> (r: ReadPoll<S::Error>)
        requires
            old(self).wf(),
        ensures
            final(self).wf(),
            old(self).done() ==> final(self).done(),
            (r matches ReadPoll::Data(v) ==> v@.len() <= max_len
                && v@.len() <= old(self).total().len()
                && v@ == old(self).total().take(v@.len() as int)
                && final(self).total() == old(self).total().skip(v@.len() as int)
                && (v@.len() < max_len ==> final(self).buffered().len() == 0)
                && (v@.len() == 0 && max_len > 0 ==> final(self).done()
                    && old(self).total().len() == 0)),
            (old(self).buffered().len() >= max_len ==> (r matches ReadPoll::Data(v)
                && v@.len() == max_len)),
            (old(self).done() ==> r is Data),
            (old(self).buffered().len() + prompt_bytes(old(self).events()) >= max_len ==> (
                r matches ReadPoll::Data(v) && v@.len() == max_len)),
            (all_gives(old(self).events()) && old(self).total().len() < max_len ==> (
                r matches ReadPoll::Data(v) && v@ == old(self).total()
                && final(self).done())),
            all_gives(old(self).events()) ==> all_gives(final(self).events()),
            (r matches ReadPoll::Pending ==> final(self).total() == old(self).total()
                && old(self).buffered().len() == 0
                && final(self).buffered().len() == 0
                && !final(self).done()),
            (r matches ReadPoll::Failed(e) ==> final(self).done() == old(self).done()
                && exists|j: int| 0 <= j <= old(self).upcoming().len()
                    && final(self).buffered() == old(self).buffered()
                        + concat_chunks(#[trigger] old(self).upcoming().take(j))),
    {
        proof {
            if all_gives(old(self).events()) {
                lemma_all_gives_bytes(old(self).events());
            }
        }
        let st = self.poll_buffer_until(max_len);
        let ghost bfill = self.buffered();
        let ghost rest = concat_chunks(self.upcoming());
        match st {
            PollStatus::Failed(e) => ReadPoll::Failed(e),
            PollStatus::Pending => {
                if self.bytes.len() == 0 {
                    ReadPoll::Pending
                } else {
                    let v = self.take_front(max_len);
                    proof {
                        lemma_front_of_total(old(self).total(), bfill, rest, v@.len() as int);
                    }
                    ReadPoll::Data(v)
                }
            },
            PollStatus::Ready => {
                let v = self.take_front(max_len);
                proof {
                    lemma_front_of_total(old(self).total(), bfill, rest, v@.len() as int);
                    if all_gives(old(self).events())
                        && old(self).total().len() < max_len as int {
                        assert(v@.len() == old(self).total().len());
                        assert(old(self).total().take(old(self).total().len() as int)
                            =~= old(self).total());
                    }
                }
                ReadPoll::Data(v)
            },
        }
    }

    /// Ensure at least one byte is buffered (unless the source is
    /// exhausted) so that `peek` has something to show; would-block when
    /// nothing is buffered and the source is not ready. When a byte is
    /// already buffered, or the source is exhausted, nothing is polled
    /// and nothing changes.
    pub fn fill_buf(&mut self) -> (r: PollStatus<S::Error>)
        requires
            old(self).wf(),
        ensures
            final(self).wf(),
            old(self).done() ==> final(self).done(),
            old(self).buffered().is_prefix_of(final(self).buffered()),
            (r matches PollStatus::Ready ==> final(self).total() == old(self).total()
                && (final(self).buffered().len() >= 1 || final(self).done())),
            (r matches PollStatus::Pending ==> final(self).total() == old(self).total()
                && final(self).buffered().len() == 0 && !final(self).done()),
            (r matches PollStatus::Failed(e) ==> final(self).done() == old(self).done()
                && exists|j: int| 0 <= j <= old(self).upcoming().len()
                    && final(self).buffered() == old(self).buffered()
                        + concat_chunks(#[trigger] old(self).upcoming().take(j))),
            (old(self).buffered().len() >= 1 || old(self).done() ==> (
                r matches PollStatus::Ready
                && final(self).buffered() == old(self).buffered()
                && final(self).upcoming() == old(self).upcoming()
                && final(self).done() == old(self).done())),
            (old(self).buffered().len() + prompt_bytes(old(self).events()) >= 1 ==> (
                r matches PollStatus::Ready && final(self).buffered().len() >= 1)),
            all_gives(old(self).events()) ==> all_gives(final(self).events()),
    {
        self.poll_buffer_until(1)
    }
}

/// Taking `k` bytes off the front of a stream whose buffer holds `buf`
/// takes them off the front of the whole stream: what is removed is a
/// prefix of the total, and what remains is the matching suffix.
proof fn lemma_front_of_total(total: Seq<u8>, buf: Seq<u8>, rest: Seq<u8>, k: int)
    requires
        0 <= k <= buf.len(),
        total == buf + rest,
    ensures
        buf.take(k) == total.take(k),
        buf.skip(k) + rest == total.skip(k),
{
    assert(buf.take(k) =~= total.take(k));
    assert(buf.skip(k) + rest =~= total.skip(k));
}

/// Read-size invariance: reads take successive prefixes of the total
/// stream, so two reads of `a` then `b` bytes return, concatenated, the
/// same bytes as one read of `a + b` bytes. With `read`'s contract — a
/// read of `n` bytes returns `total().take(n)` for an `n` no larger
/// than the stream, and leaves `total().skip(n)` — this law extends to
/// any split of read sizes: reading everything yields the exact
/// concatenation of all chunks, in order, with no loss or duplication.
pub proof fn lemma_reads_concatenate(total: Seq<u8>, a: int, b: int)
    requires
        0 <= a,
        0 <= b,
        a + b <= total.len(),
    ensures
        total.take(a) + total.skip(a).take(b) == total.take(a + b),
{
    assert(total.take(a) + total.skip(a).take(b) =~= total.take(a + b));
}

/// Push-back round trip: after `prepend_bytes(b)` the stream's total is
/// `b` followed by whatever was there before, so a read of `b.len()`
/// bytes — guaranteed to return exactly that many, since they are all
/// buffered — returns exactly `b`, regardless of what was buffered or
/// still upcoming before.
pub proof fn lemma_prepend_read_round_trip(front: Seq<u8>, buffered: Seq<u8>, upcoming: Seq<u8>)
    ensures
        ((front + buffered) + upcoming).take(front.len() as int) == front,
        ((front + buffered) + upcoming).skip(front.len() as int) == buffered + upcoming,
{
    assert(((front + buffered) + upcoming).take(front.len() as int) =~= front);
    assert(((front + buffered) + upcoming).skip(front.len() as int) =~= buffered + upcoming);
}

} // verus!
