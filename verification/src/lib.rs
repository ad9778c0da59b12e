//! A pull-based buffered reader over a push-based source of byte chunks,
//! together with a one-shot operation that decodes a single structured
//! value out of the buffered stream.

mod decode;
mod frame;
mod reader;
mod source;

pub use decode::BytesStreamFuture;
pub use decode::DecodePoll;
pub use decode::Decoder;
pub use decode::ProbeStep;
pub use decode::decoded_from;
pub use decode::lemma_probe_agreement;
pub use frame::FrameDecoder;
pub use frame::FrameError;
pub use frame::frame_len;
pub use reader::BytesStream;
pub use reader::PollStatus;
pub use reader::ReadPoll;
pub use reader::lemma_prepend_read_round_trip;
pub use reader::lemma_reads_concatenate;
pub use source::ChunkEvent;
pub use source::ChunkSource;
pub use source::PollChunk;
pub use source::ScriptSource;
pub use source::ScriptStep;
pub use source::all_gives;
pub use source::concat_chunks;
pub use source::event_chunks;
pub use source::lemma_all_gives_bytes;
pub use source::lemma_concat_chunks_app;
pub use source::lemma_concat_chunks_take_succ;
pub use source::prompt_bytes;
pub use source::script_events;
pub use source::step_event;
