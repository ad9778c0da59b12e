//! A sample decode function: a length-prefixed frame codec. A frame is a
//! two-byte big-endian length header followed by that many payload
//! bytes; the decoded value is the payload. Frames longer than a
//! configured maximum are rejected as malformed.

use vstd::prelude::*;

use crate::decode::Decoder;
use crate::decode::ProbeStep;

verus! {

/// The length a frame header announces: the first byte is the high
/// half, the second the low half.
pub open spec fn frame_len(input: Seq<u8>) -> int
    recommends
        input.len() >= 2,
{
    (input[0] as int) * 256 + (input[1] as int)
}

/// The error a frame decode can report.
#[derive(Debug)]
pub enum FrameError {
    /// The header announces a payload longer than the configured maximum.
    TooLong,
}

/// A decoder for length-prefixed frames with a maximum payload length.
pub struct FrameDecoder {
    max_len: usize,
}

impl FrameDecoder {
    /// The longest payload this decoder accepts.
    pub closed spec fn max(&self) -> int {
        self.max_len as int
    }

    /// A frame decoder that accepts payloads up to `max_len` bytes.
    pub fn new(max_len: usize) -> (r: Self)
        ensures
            r.max() == max_len as int,
    {
        FrameDecoder { max_len }
    }
}

impl Decoder for FrameDecoder {
    type Item = Vec<u8>;

    type Error = FrameError;

    /// A frame is complete once the header and the announced payload are
    /// both present; a header announcing more than the maximum is
    /// malformed; anything shorter is incomplete.
    open spec fn probe(&self, input: Seq<u8>) -> ProbeStep {
        if input.len() < 2 {
            ProbeStep::Incomplete
        } else if frame_len(input) > self.max() {
            ProbeStep::Malformed
        } else if input.len() < 2 + frame_len(input) {
            ProbeStep::Incomplete
        } else {
            ProbeStep::Parsed(2 + frame_len(input))
        }
    }

    /// End of input changes nothing for this format: a truncated frame
    /// stays incomplete.
    open spec fn probe_eof(&self, input: Seq<u8>) -> ProbeStep {
        self.probe(input)
    }

    /// The payload bytes that follow the header.
    open spec fn parsed_value(&self, input: Seq<u8>) -> Seq<u8> {
        input.subrange(2, 2 + frame_len(input))
    }

    proof fn probe_laws(&self, input: Seq<u8>, ext: Seq<u8>) {
        if self.probe(input) is Parsed {
            let w = input + ext;
            assert(w[0] == input[0] && w[1] == input[1]);
            assert(frame_len(w) == frame_len(input));
            assert(self.parsed_value(w) =~= self.parsed_value(input));
        }
    }

    fn decode(&self, input: &[u8]) -> (r: Result<Option<(Vec<u8>, usize)>, FrameError>) {
        if input.len() < 2 {
            return Ok(None);
        }
        let hi = input[0] as usize;
        let lo = input[1] as usize;
        let n: usize = hi * 256 + lo;
        if n > self.max_len {
            return Err(FrameError::TooLong);
        }
        if input.len() < 2 + n {
            return Ok(None);
        }
        let mut payload: Vec<u8> = Vec::with_capacity(n);
        let mut i: usize = 0;
        while i < n
            invariant
                n + 2 <= input@.len(),
                0 <= i <= n,
                payload@ == input@.subrange(2, 2 + i),
            decreases n - i,
        {
            payload.push(input[2 + i]);
            proof {
                assert(payload@ =~= input@.subrange(2, 2 + i + 1));
            }
            i = i + 1;
        }
        proof {
            assert(payload@ == self.parsed_value(input@));
        }
        Ok(Some((payload, 2 + n)))
    }

    fn decode_eof(&self, input: &[u8]) -> (r: Result<Option<(Vec<u8>, usize)>, FrameError>) {
        self.decode(input)
    }
}

} // verus!
