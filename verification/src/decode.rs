//! A one-shot, resumable operation that extracts exactly one structured
//! value from a buffered byte stream: it probes the buffered bytes with a
//! decode function, pulls one more chunk whenever the probe reports that
//! it needs more data, and hands the reader back with whatever remains.

use vstd::prelude::*;
use vstd::pervasive::unreached;

use crate::reader::BytesStream;
use crate::reader::PollStatus;
use crate::source::ChunkSource;

verus! {

/// What a decode probe says about a byte prefix: a complete value that
/// consumes the given number of bytes from the front, not enough data
/// yet, or malformed input.
pub enum ProbeStep {
    Parsed(int),
    Incomplete,
    Malformed,
}

/// A decode function: a probe over a byte prefix that reports a complete
/// value together with how many bytes it consumes, asks for more data, or
/// rejects the prefix as malformed.
///
/// `probe` is the ghost model of `decode`, and `probe_eof` of
/// `decode_eof`, the variant consulted once the input is known to be
/// finished (some formats validly terminate without a trailing
/// delimiter). `parsed_value` gives the view of the value parsed at a
/// prefix where the probe reports one. Decode attempts are idempotent
/// probes over a growing prefix: once a prefix holds a complete value,
/// extending the prefix changes nothing — `probe_laws` is each
/// implementation's proof of that, and of the bound that a probe never
/// claims to consume more bytes than it was shown.
pub trait Decoder: Sized {
    /// The decoded value type.
    type Item: View;

    /// The decode function's own error type, propagated unchanged.
    type Error;

    /// Ghost model of `decode` on a byte prefix.
    spec fn probe(&self, input: Seq<u8>) -> ProbeStep;

    /// Ghost model of `decode_eof` on a byte prefix.
    spec fn probe_eof(&self, input: Seq<u8>) -> ProbeStep;

    /// The view of the value parsed at a prefix where the probe reports
    /// a complete value.
    spec fn parsed_value(&self, input: Seq<u8>) -> <Self::Item as View>::V;

    /// The laws of an incremental decode probe: a parse consumes at most
    /// what it was shown, survives any extension of the input unchanged,
    /// and is not revoked by the end of input.
    proof fn probe_laws(&self, input: Seq<u8>, ext: Seq<u8>)
        ensures
            (self.probe(input) matches ProbeStep::Parsed(n) ==> 0 <= n <= input.len()),
            (self.probe_eof(input) matches ProbeStep::Parsed(n) ==> 0 <= n <= input.len()),
            (self.probe(input) is Parsed ==> self.probe(input + ext) == self.probe(input)
                && self.parsed_value(input + ext) == self.parsed_value(input)
                && self.probe_eof(input) == self.probe(input)),
    ;

    /// Attempt to decode one value from the given buffered bytes,
    /// without consuming them; on success, report how many bytes the
    /// parse consumes from the front.
    fn decode(&self, input: &[u8]) -> (r: Result<Option<(Self::Item, usize)>, Self::Error>)
        ensures
            (match r {
                Ok(Some((v, n))) => self.probe(input@) == ProbeStep::Parsed(n as int)
                    && v@ == self.parsed_value(input@),
                Ok(None) => self.probe(input@) is Incomplete,
                Err(_) => self.probe(input@) is Malformed,
            }),
    ;

    /// Like `decode`, but treating the input as finished: the one final
    /// chance to produce a value once the source is exhausted.
    fn decode_eof(&self, input: &[u8]) -> (r: Result<Option<(Self::Item, usize)>, Self::Error>)
        ensures
            (match r {
                Ok(Some((v, n))) => self.probe_eof(input@) == ProbeStep::Parsed(n as int)
                    && v@ == self.parsed_value(input@),
                Ok(None) => self.probe_eof(input@) is Incomplete,
                Err(_) => self.probe_eof(input@) is Malformed,
            }),
    ;
}

/// The decoder parsed the value `v`, consuming `n` bytes, at some probed
/// prefix of `total` (at `total` itself under end-of-input rules when
/// `eof` is set).
pub open spec fn decoded_from<D: Decoder>(
    d: D,
    total: Seq<u8>,
    v: <D::Item as View>::V,
    n: int,
    eof: bool,
) -> bool {
    if eof {
        d.probe_eof(total) == ProbeStep::Parsed(n) && v == d.parsed_value(total)
    } else {
        exists|p: int| n <= p <= total.len()
            && d.probe(#[trigger] total.take(p)) == ProbeStep::Parsed(n)
            && v == d.parsed_value(total.take(p))
    }
}

/// Outcome of polling a decode operation once.
pub enum DecodePoll<S, T, ES, ED> {
    /// A value was decoded; the reader comes back holding exactly the
    /// bytes that follow it.
    Decoded(T, BytesStream<S>),
    /// The source has no chunk ready yet; poll again later.
    Pending,
    /// The source was exhausted before a value could be formed, and the
    /// final end-of-input decode produced none either; the reader comes
    /// back holding the undecoded trailing bytes.
    PrematureEnd(BytesStream<S>),
    /// The source failed while more input was being awaited.
    SourceFailed(ES),
    /// The decode function rejected the buffered prefix as malformed.
    DecodeFailed(ED),
}

/// A one-shot decode operation: a reader paired with a decode function,
/// driven by `poll` until it yields a value, fails, or hits end of
/// input. It is consumed by completing once and cannot be restarted.
pub struct BytesStreamFuture<S, D> {
    stream: Option<BytesStream<S>>,
    decoder: D,
}

impl<S: ChunkSource, D: Decoder> BytesStreamFuture<S, D> {
    /// Whether the operation has not yet completed.
    pub closed spec fn live(&self) -> bool {
        self.stream is Some
    }

    /// The reader held by a still-live operation.
    pub closed spec fn reader(&self) -> BytesStream<S> {
        self.stream->Some_0
    }

    /// The decode function driving the operation.
    pub closed spec fn dec(&self) -> D {
        self.decoder
    }

    /// Drive the operation until it completes or the source has no chunk
    /// ready. On `Pending` the operation stays live, with nothing
    /// consumed and no byte lost, and may be polled again; every other
    /// outcome completes and consumes it.
    pub fn poll(&mut self) -> (r: DecodePoll<S, D::Item, S::Error, D::Error>)
        requires
            old(self).live(),
            old(self).reader().wf(),
        ensures
            final(self).dec() == old(self).dec(),
            (r matches DecodePoll::Decoded(v, out) ==> !final(self).live() && out.wf()
                && exists|n: int| 0 <= n <= old(self).reader().total().len()
                    && out.total() == #[trigger] old(self).reader().total().skip(n)
                    && (decoded_from(old(self).dec(), old(self).reader().total(), v@, n, false)
                        || (decoded_from(old(self).dec(), old(self).reader().total(), v@, n, true)
                            && out.done()))),
            (r matches DecodePoll::Pending ==> final(self).live()
                && final(self).reader().wf()
                && !final(self).reader().done()
                && final(self).reader().total() == old(self).reader().total()),
            (r matches DecodePoll::PrematureEnd(out) ==> !final(self).live() && out.wf()
                && out.done()
                && out.buffered() == old(self).reader().total()
                && out.total() == old(self).reader().total()
                && old(self).dec().probe(old(self).reader().total()) is Incomplete
                && old(self).dec().probe_eof(old(self).reader().total()) is Incomplete),
            (r matches DecodePoll::SourceFailed(e) ==> !final(self).live()),
            (r matches DecodePoll::DecodeFailed(e) ==> !final(self).live()
                && ((exists|p: int| 0 <= p <= old(self).reader().total().len()
                        && old(self).dec().probe(
                            #[trigger] old(self).reader().total().take(p)) is Malformed)
                    || old(self).dec().probe_eof(old(self).reader().total()) is Malformed)),
            (old(self).dec().probe(old(self).reader().buffered())
                matches ProbeStep::Parsed(n) ==> (r matches DecodePoll::Decoded(v, out)
                && v@ == old(self).dec().parsed_value(old(self).reader().buffered())
                && out.total() == old(self).reader().total().skip(n))),
            (old(self).dec().probe(old(self).reader().buffered()) is Malformed
                ==> r is DecodeFailed),
            (r is Pending ==> !old(self).reader().done()),
            (r is SourceFailed ==> !old(self).reader().done()),
            (old(self).reader().done()
                && old(self).dec().probe(old(self).reader().total()) is Incomplete ==> (
                match old(self).dec().probe_eof(old(self).reader().total()) {
                    ProbeStep::Parsed(_) => r is Decoded,
                    ProbeStep::Incomplete => r is PrematureEnd,
                    ProbeStep::Malformed => r is DecodeFailed,
                })),
    {
        let ghost t0 = old(self).reader().total();
        let opt = self.stream.take();
        let mut bs = match opt {
            Some(b) => b,
            None => unreached(),
        };
        loop
            invariant
                self.stream is None,
                self.decoder == old(self).dec(),
                t0 == old(self).reader().total(),
                bs.wf(),
                bs.total() == t0,
                bs.buffered() == t0.take(bs.buffered().len() as int),
                old(self).reader().done() ==> bs.done(),
                self.decoder.probe(old(self).reader().buffered()) is Incomplete
                    || bs.buffered() == old(self).reader().buffered(),
            decreases bs.upcoming().len() + (if bs.done() { 0int } else { 1int }),
        {
            let ghost buf = bs.buffered();
            let ghost rest = crate::source::concat_chunks(bs.upcoming());
            match self.decoder.decode(bs.peek()) {
                Err(e) => {
                    proof {
                        assert(0 <= buf.len() <= t0.len()
                            && self.decoder.probe(t0.take(buf.len() as int)) is Malformed);
                    }
                    return DecodePoll::DecodeFailed(e);
                },
                Ok(Some((v, n))) => {
                    proof {
                        self.decoder.probe_laws(buf, Seq::empty());
                    }
                    bs.consume(n);
                    proof {
                        lemma_total_suffix(t0, buf, rest, n as int);
                        assert(self.decoder.probe(t0.take(buf.len() as int))
                            == ProbeStep::Parsed(n as int)
                            && v@ == self.decoder.parsed_value(t0.take(buf.len() as int)));
                        assert(decoded_from(self.decoder, t0, v@, n as int, false));
                    }
                    return DecodePoll::Decoded(v, bs);
                },
                Ok(None) => {
                    if bs.is_exhausted() {
                        proof {
                            assert(bs.buffered() =~= t0);
                        }
                        match self.decoder.decode_eof(bs.peek()) {
                            Err(e) => {
                                return DecodePoll::DecodeFailed(e);
                            },
                            Ok(Some((v, n))) => {
                                proof {
                                    self.decoder.probe_laws(buf, Seq::empty());
                                }
                                bs.consume(n);
                                proof {
                                    lemma_total_suffix(t0, buf, rest, n as int);
                                    assert(decoded_from(self.decoder, t0, v@, n as int, true));
                                }
                                return DecodePoll::Decoded(v, bs);
                            },
                            Ok(None) => {
                                return DecodePoll::PrematureEnd(bs);
                            },
                        }
                    } else {
                        match bs.poll_buffer() {
                            PollStatus::Ready => {
                                proof {
                                    assert(bs.buffered()
                                        =~= t0.take(bs.buffered().len() as int));
                                }
                            },
                            PollStatus::Pending => {
                                self.stream = Some(bs);
                                return DecodePoll::Pending;
                            },
                            PollStatus::Failed(e) => {
                                return DecodePoll::SourceFailed(e);
                            },
                        }
                    }
                },
            }
        }
    }
}

impl<S: ChunkSource> BytesStream<S> {
    /// Pair this reader with a decode function, yielding the one-shot
    /// operation that decodes a single value from its buffered stream.
    pub fn into_future_decode<D: Decoder>(self, decoder: D) -> (r: BytesStreamFuture<S, D>)
        ensures
            r.live(),
            r.reader() == self,
            r.dec() == decoder,
    {
        BytesStreamFuture { stream: Some(self), decoder }
    }
}

/// Consuming `n` bytes from the front of a buffer that is a prefix of
/// the total stream leaves exactly the total's suffix past `n`.
proof fn lemma_total_suffix(total: Seq<u8>, buf: Seq<u8>, rest: Seq<u8>, n: int)
    requires
        0 <= n <= buf.len(),
        total == buf + rest,
    ensures
        buf.skip(n) + rest == total.skip(n),
{
    assert(buf.skip(n) + rest =~= total.skip(n));
}

/// Split invariance of decoding: any two prefixes of the same stream at
/// which the decoder reports a complete value report the same value and
/// the same consumed count — the shorter prefix's parse survives
/// unchanged into the longer one. Hence, however the stream was split
/// into chunks, whichever probed prefix first completes yields the value
/// that any complete prefix would have yielded, and the bytes past what
/// it consumed are exactly the bytes past that value in the stream.
pub proof fn lemma_probe_agreement<D: Decoder>(d: &D, total: Seq<u8>, p: int, q: int)
    requires
        0 <= p <= q <= total.len(),
        d.probe(total.take(p)) is Parsed,
    ensures
        d.probe(total.take(q)) == d.probe(total.take(p)),
        d.parsed_value(total.take(q)) == d.parsed_value(total.take(p)),
{
    let ext = total.subrange(p, q);
    assert(total.take(q) =~= total.take(p) + ext);
    d.probe_laws(total.take(p), ext);
}

} // verus!
