use bytes_stream::BytesStream;
use bytes_stream::DecodePoll;
use bytes_stream::FrameDecoder;
use bytes_stream::FrameError;
use bytes_stream::ReadPoll;
use bytes_stream::ScriptSource;
use bytes_stream::ScriptStep;

fn make_reader(in_reads: Vec<Vec<u8>>) -> BytesStream<ScriptSource<u8>> {
    BytesStream::new(ScriptSource::from_chunks(in_reads))
}

fn drain(reader: &mut BytesStream<ScriptSource<u8>>) -> Vec<u8> {
    let mut out = Vec::new();
    loop {
        match reader.read(16) {
            ReadPoll::Data(v) => {
                if v.is_empty() {
                    return out;
                }
                out.extend_from_slice(&v);
            }
            _ => panic!("source not ready or failed"),
        }
    }
}

#[test]
fn test_decode_one_byte_chunks() {
    // A two-byte header announcing three payload bytes, delivered one
    // byte at a time, still decodes to the right value.
    let chunks = vec![vec![0], vec![3], vec![10], vec![20], vec![30]];
    let mut fut = make_reader(chunks).into_future_decode(FrameDecoder::new(100));
    match fut.poll() {
        DecodePoll::Decoded(v, mut rest) => {
            assert_eq!(v, vec![10, 20, 30]);
            assert_eq!(drain(&mut rest), vec![]);
        }
        _ => panic!("expected a decoded frame"),
    }
}

#[test]
fn test_decode_leftover_bytes() {
    // The reader comes back holding exactly the bytes past the frame.
    let chunks = vec![vec![0, 2, 1, 2, 99, 98]];
    let mut fut = make_reader(chunks).into_future_decode(FrameDecoder::new(100));
    match fut.poll() {
        DecodePoll::Decoded(v, mut rest) => {
            assert_eq!(v, vec![1, 2]);
            assert_eq!(drain(&mut rest), vec![99, 98]);
        }
        _ => panic!("expected a decoded frame"),
    }
}

#[test]
fn test_decode_empty_payload() {
    let chunks = vec![vec![0, 0, 5]];
    let mut fut = make_reader(chunks).into_future_decode(FrameDecoder::new(100));
    match fut.poll() {
        DecodePoll::Decoded(v, mut rest) => {
            assert_eq!(v, vec![]);
            assert_eq!(drain(&mut rest), vec![5]);
        }
        _ => panic!("expected a decoded frame"),
    }
}

#[test]
fn test_decode_two_byte_length() {
    // The header length is big-endian: [1, 4] announces 256 + 4 bytes.
    let mut payload = Vec::new();
    for i in 0..260 {
        payload.push((i % 251) as u8);
    }
    let mut framed = vec![1, 4];
    framed.extend_from_slice(&payload);
    let mut fut = make_reader(vec![framed]).into_future_decode(FrameDecoder::new(1000));
    match fut.poll() {
        DecodePoll::Decoded(v, _rest) => assert_eq!(v, payload),
        _ => panic!("expected a decoded frame"),
    }
}

#[test]
fn test_decode_premature_end() {
    // The header promises five payload bytes but only two ever arrive:
    // the operation reports a premature end and hands back a reader
    // holding exactly the undecoded trailing bytes.
    let chunks = vec![vec![0, 5], vec![1, 2]];
    let mut fut = make_reader(chunks).into_future_decode(FrameDecoder::new(100));
    match fut.poll() {
        DecodePoll::PrematureEnd(rest) => {
            let (bytes, _source) = rest.into_parts();
            assert_eq!(bytes, vec![0, 5, 1, 2]);
        }
        _ => panic!("expected a premature end"),
    }
}

#[test]
fn test_decode_malformed() {
    // A header announcing more than the decoder's maximum is malformed.
    let chunks = vec![vec![9, 9]];
    let mut fut = make_reader(chunks).into_future_decode(FrameDecoder::new(2));
    match fut.poll() {
        DecodePoll::DecodeFailed(e) => assert!(matches!(e, FrameError::TooLong)),
        _ => panic!("expected a decode failure"),
    }
}

#[test]
fn test_decode_pending_resume() {
    // A would-block source suspends the whole operation; a later poll
    // resumes it with nothing lost.
    let steps: Vec<ScriptStep<u8>> =
        vec![ScriptStep::Give(vec![0, 1]), ScriptStep::Wait, ScriptStep::Give(vec![77])];
    let mut fut =
        BytesStream::new(ScriptSource::new(steps)).into_future_decode(FrameDecoder::new(100));
    assert!(matches!(fut.poll(), DecodePoll::Pending));
    match fut.poll() {
        DecodePoll::Decoded(v, _rest) => assert_eq!(v, vec![77]),
        _ => panic!("expected a decoded frame after resuming"),
    }
}

#[test]
fn test_decode_source_failure() {
    let steps: Vec<ScriptStep<u8>> = vec![ScriptStep::Fail(5)];
    let mut fut =
        BytesStream::new(ScriptSource::new(steps)).into_future_decode(FrameDecoder::new(100));
    match fut.poll() {
        DecodePoll::SourceFailed(e) => assert_eq!(e, 5),
        _ => panic!("expected the source failure to propagate"),
    }
}

#[test]
fn test_decode_after_prepend() {
    // Pushed-back bytes are decoded before anything the source yields.
    let chunks = vec![vec![30]];
    let mut reader = make_reader(chunks);
    reader.prepend_bytes(vec![0, 2, 10]);
    let mut fut = reader.into_future_decode(FrameDecoder::new(100));
    match fut.poll() {
        DecodePoll::Decoded(v, _rest) => assert_eq!(v, vec![10, 30]),
        _ => panic!("expected a decoded frame"),
    }
}
