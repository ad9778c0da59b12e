//! The upstream capability a reader pulls from: a producer of ordered byte
//! chunks that, on each poll, yields a chunk, reports that none is ready
//! yet, reports permanent exhaustion, or fails.

use vstd::prelude::*;

verus! {

/// The four possible outcomes of polling a chunk source once.
pub enum PollChunk<E> {
    /// The next chunk of bytes, in arrival order.
    Chunk(Vec<u8>),
    /// No chunk is ready yet; poll again later. No data is lost.
    Pending,
    /// The source is exhausted and will never yield another chunk.
    Done,
    /// The source failed; the chunk it was producing is gone for good.
    Failed(E),
}

/// One poll outcome of a source, as the ghost model sees it: a chunk
/// handed out, a "not ready yet" signal, or a failure.
pub enum ChunkEvent {
    Give(Seq<u8>),
    Wait,
    Fail,
}

/// The chunks a sequence of poll events delivers before its first
/// failure, in order.
pub open spec fn event_chunks(events: Seq<ChunkEvent>) -> Seq<Seq<u8>>
    decreases events.len(),
{
    if events.len() == 0 {
        Seq::empty()
    } else {
        match events[0] {
            ChunkEvent::Give(c) => seq![c] + event_chunks(events.drop_first()),
            ChunkEvent::Wait => event_chunks(events.drop_first()),
            ChunkEvent::Fail => Seq::empty(),
        }
    }
}

/// The bytes a sequence of poll events delivers promptly: the chunks of
/// its leading run of `Give` events, before any wait or failure.
pub open spec fn prompt_bytes(events: Seq<ChunkEvent>) -> nat
    decreases events.len(),
{
    if events.len() == 0 {
        0
    } else {
        match events[0] {
            ChunkEvent::Give(c) => c.len() + prompt_bytes(events.drop_first()),
            ChunkEvent::Wait => 0,
            ChunkEvent::Fail => 0,
        }
    }
}

/// Whether every poll event hands out a chunk: the source never waits
/// and never fails, it just delivers and then reports exhaustion.
pub open spec fn all_gives(events: Seq<ChunkEvent>) -> bool
    decreases events.len(),
{
    if events.len() == 0 {
        true
    } else {
        events[0] is Give && all_gives(events.drop_first())
    }
}

/// The concatenation of a sequence of chunks into one byte sequence.
pub open spec fn concat_chunks(chunks: Seq<Seq<u8>>) -> Seq<u8>
    decreases chunks.len(),
{
    if chunks.len() == 0 {
        Seq::empty()
    } else {
        chunks[0] + concat_chunks(chunks.drop_first())
    }
}

/// Concatenation distributes over appending chunk sequences.
pub proof fn lemma_concat_chunks_app(a: Seq<Seq<u8>>, b: Seq<Seq<u8>>)
    ensures
        concat_chunks(a + b) == concat_chunks(a) + concat_chunks(b),
    decreases a.len(),
{
    if a.len() == 0 {
        assert(a + b =~= b);
        assert(concat_chunks(a) + concat_chunks(b) =~= concat_chunks(b));
    } else {
        assert((a + b).drop_first() =~= a.drop_first() + b);
        lemma_concat_chunks_app(a.drop_first(), b);
        assert((a + b)[0] == a[0]);
        assert(concat_chunks(a + b) =~= concat_chunks(a) + concat_chunks(b));
    }
}

/// Extending a prefix of the chunk sequence by one chunk extends the
/// concatenation by that chunk.
pub proof fn lemma_concat_chunks_take_succ(s: Seq<Seq<u8>>, j: int)
    requires
        0 <= j < s.len(),
    ensures
        concat_chunks(s.take(j + 1)) == concat_chunks(s.take(j)) + s[j],
{
    assert(s.take(j + 1) =~= s.take(j) + seq![s[j]]);
    lemma_concat_chunks_app(s.take(j), seq![s[j]]);
    assert(seq![s[j]].drop_first() =~= Seq::<Seq<u8>>::empty());
    assert(concat_chunks(Seq::<Seq<u8>>::empty()) == Seq::<u8>::empty());
    assert(concat_chunks(seq![s[j]]) =~= s[j]);
}

/// A source that never waits and never fails delivers all of its chunks
/// promptly: its prompt bytes are all the bytes it will ever yield.
pub proof fn lemma_all_gives_bytes(events: Seq<ChunkEvent>)
    requires
        all_gives(events),
    ensures
        concat_chunks(event_chunks(events)).len() == prompt_bytes(events),
    decreases events.len(),
{
    if events.len() == 0 {
        assert(event_chunks(events) =~= Seq::<Seq<u8>>::empty());
    } else {
        lemma_all_gives_bytes(events.drop_first());
        let c = events[0]->Give_0;
        assert(event_chunks(events) == seq![c] + event_chunks(events.drop_first()));
        assert(seq![c].drop_first() =~= Seq::<Seq<u8>>::empty());
        assert(concat_chunks(Seq::<Seq<u8>>::empty()) == Seq::<u8>::empty());
        lemma_concat_chunks_app(seq![c], event_chunks(events.drop_first()));
        assert(concat_chunks(seq![c]) =~= c);
    }
}

/// A producer of ordered byte chunks, polled one chunk at a time.
///
/// `events()` is the ghost sequence of poll outcomes this source will
/// produce, in order, until it is exhausted. Each poll consumes exactly
/// the head event and reports it faithfully: a `Give` is handed out as
/// that chunk, a `Wait` as "not ready yet", a `Fail` as a failure, and
/// exhaustion is reported only once no event remains — so a source
/// whose next event is a `Give` cannot stall, and exhaustion is
/// permanent.
pub trait ChunkSource: Sized {
    /// The source's own error type, propagated unchanged to callers.
    type Error;

    /// The poll outcomes this source will still produce, in order.
    spec fn events(&self) -> Seq<ChunkEvent>;

    /// Poll the source once for its next chunk.
    fn poll_chunk(&mut self) -> (r: PollChunk<Self::Error>)
        ensures
            (r matches PollChunk::Chunk(c) ==> old(self).events().len() > 0
                && old(self).events()[0] == ChunkEvent::Give(c@)
                && final(self).events() == old(self).events().drop_first()),
            (r matches PollChunk::Pending ==> old(self).events().len() > 0
                && old(self).events()[0] is Wait
                && final(self).events() == old(self).events().drop_first()),
            (r matches PollChunk::Failed(e) ==> old(self).events().len() > 0
                && old(self).events()[0] is Fail
                && final(self).events() == old(self).events().drop_first()),
            (r matches PollChunk::Done ==> old(self).events().len() == 0
                && final(self).events() == old(self).events()),
    ;
}

/// One step of a scripted source: hand out a chunk, report "not ready
/// yet" once, or fail with the given error.
pub enum ScriptStep<E> {
    Give(Vec<u8>),
    Wait,
    Fail(E),
}

/// The poll event a script step produces.
pub open spec fn step_event<E>(step: ScriptStep<E>) -> ChunkEvent {
    match step {
        ScriptStep::Give(c) => ChunkEvent::Give(c@),
        ScriptStep::Wait => ChunkEvent::Wait,
        ScriptStep::Fail(_) => ChunkEvent::Fail,
    }
}

/// The poll events a whole script produces, in order.
pub open spec fn script_events<E>(steps: Seq<ScriptStep<E>>) -> Seq<ChunkEvent> {
    steps.map_values(|step: ScriptStep<E>| step_event(step))
}

/// A chunk source driven by a fixed script of steps. It yields the
/// scripted chunks in order, interleaved with "not ready" signals and
/// failures where the script says so, and reports exhaustion once the
/// script is used up.
pub struct ScriptSource<E> {
    steps: Vec<ScriptStep<E>>,
    pos: usize,
}

impl<E: Clone> ScriptSource<E> {
    /// A source that will play the given steps in order.
    pub fn new(steps: Vec<ScriptStep<E>>) -> (r: Self)
        ensures
            r.events() == script_events(steps@),
    {
        let r = ScriptSource { steps, pos: 0 };
        proof {
            assert(r.steps@.skip(0) =~= r.steps@);
        }
        r
    }

    /// A source that yields exactly the given chunks, one per poll, and
    /// then reports exhaustion; it never waits and never fails.
    pub fn from_chunks(chunks: Vec<Vec<u8>>) -> (r: Self)
        ensures
            all_gives(r.events()),
            event_chunks(r.events()).len() == chunks@.len(),
            forall|i: int| 0 <= i < chunks@.len()
                ==> #[trigger] event_chunks(r.events())[i] == chunks@[i]@,
    {
        let n: usize = chunks.len();
        let mut steps: Vec<ScriptStep<E>> = Vec::with_capacity(n);
        let mut i: usize = 0;
        while i < n
            invariant
                n == chunks@.len(),
                0 <= i <= n,
                steps@.len() == i,
                forall|k: int| 0 <= k < i ==> ((#[trigger] steps@[k]) matches ScriptStep::Give(c)
                    && c@ == chunks@[k]@),
            decreases n - i,
        {
            let c = copy_bytes(chunks[i].as_slice());
            steps.push(ScriptStep::Give(c));
            i = i + 1;
        }
        proof {
            lemma_give_events(script_events(steps@), chunks@.map_values(|c: Vec<u8>| c@));
        }
        Self::new(steps)
    }
}

/// Events that all hand out chunks deliver exactly those chunks, and
/// never wait or fail.
proof fn lemma_give_events(events: Seq<ChunkEvent>, chunks: Seq<Seq<u8>>)
    requires
        events.len() == chunks.len(),
        forall|k: int| 0 <= k < events.len()
            ==> #[trigger] events[k] == ChunkEvent::Give(chunks[k]),
    ensures
        all_gives(events),
        event_chunks(events) == chunks,
    decreases events.len(),
{
    if events.len() == 0 {
        assert(event_chunks(events) =~= chunks);
    } else {
        assert(events[0] == ChunkEvent::Give(chunks[0]));
        assert(forall|k: int| 0 <= k < events.drop_first().len()
            ==> #[trigger] events.drop_first()[k] == events[k + 1]);
        lemma_give_events(events.drop_first(), chunks.drop_first());
        assert(event_chunks(events) =~= chunks);
    }
}

impl<E: Clone> ChunkSource for ScriptSource<E> {
    type Error = E;

    closed spec fn events(&self) -> Seq<ChunkEvent> {
        if self.pos as int <= self.steps@.len() {
            script_events(self.steps@.skip(self.pos as int))
        } else {
            Seq::empty()
        }
    }

    fn poll_chunk(&mut self) -> (r: PollChunk<E>) {
        if self.pos >= self.steps.len() {
            proof {
                if self.pos as int <= self.steps@.len() {
                    assert(self.steps@.skip(self.pos as int) =~= Seq::<ScriptStep<E>>::empty());
                    assert(self.events() =~= Seq::<ChunkEvent>::empty());
                }
            }
            PollChunk::Done
        } else {
            let ghost tail = old(self).steps@.skip(old(self).pos as int);
            proof {
                assert(tail.len() > 0);
                assert(tail[0] == self.steps@[self.pos as int]);
                assert(tail.drop_first() =~= self.steps@.skip(self.pos as int + 1));
                assert(script_events(tail).drop_first() =~= script_events(tail.drop_first()));
            }
            let step = &self.steps[self.pos];
            match step {
                ScriptStep::Give(c) => {
                    let chunk = copy_bytes(c.as_slice());
                    self.pos = self.pos + 1;
                    PollChunk::Chunk(chunk)
                },
                ScriptStep::Wait => {
                    self.pos = self.pos + 1;
                    PollChunk::Pending
                },
                ScriptStep::Fail(e) => {
                    let err = e.clone();
                    self.pos = self.pos + 1;
                    PollChunk::Failed(err)
                },
            }
        }
    }
}

/// Copy a byte slice into a fresh vector.
pub(crate) fn copy_bytes(src: &[u8]) -> (r: Vec<u8>)
    ensures
        r@ == src@,
{
    let n: usize = src.len();
    let mut out: Vec<u8> = Vec::with_capacity(n);
    let mut i: usize = 0;
    while i < n
        invariant
            n == src@.len(),
            0 <= i <= n,
            out@ == src@.take(i as int),
        decreases n - i,
    {
        out.push(src[i]);
        proof {
            assert(out@ =~= src@.take(i as int + 1));
        }
        i = i + 1;
    }
    proof {
        assert(out@ =~= src@);
    }
    out
}

} // verus!
