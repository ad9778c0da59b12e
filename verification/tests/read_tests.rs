use bytes_stream::BytesStream;
use bytes_stream::ChunkSource;
use bytes_stream::PollChunk;
use bytes_stream::PollStatus;
use bytes_stream::ReadPoll;
use bytes_stream::ScriptSource;
use bytes_stream::ScriptStep;

fn make_reader(in_reads: Vec<Vec<u8>>) -> BytesStream<ScriptSource<u8>> {
    BytesStream::new(ScriptSource::from_chunks(in_reads))
}

fn do_read(reader: &mut BytesStream<ScriptSource<u8>>, len_to_read: usize) -> Vec<u8> {
    match reader.read(len_to_read) {
        ReadPoll::Data(v) => v,
        ReadPoll::Pending => panic!("source not ready"),
        ReadPoll::Failed(e) => panic!("source failed: {}", e),
    }
}

#[test]
fn test_read_once() {
    let mut reader = make_reader(vec![vec![1, 2, 3, 4]]);
    let out = do_read(&mut reader, 4);
    assert_eq!(out, vec![1, 2, 3, 4]);
}

#[test]
fn test_read_join() {
    let mut reader = make_reader(vec![vec![1, 2], vec![3, 4]]);
    let out = do_read(&mut reader, 4);
    assert_eq!(out, vec![1, 2, 3, 4]);
}

#[test]
fn test_read_split() {
    let mut reader = make_reader(vec![vec![1, 2, 3, 4]]);
    let out = do_read(&mut reader, 2);
    assert_eq!(out, vec![1, 2]);
    let out = do_read(&mut reader, 2);
    assert_eq!(out, vec![3, 4]);
}

#[test]
fn test_read_eof() {
    let mut reader = make_reader(vec![vec![1, 2, 3]]);
    let out = do_read(&mut reader, 4);
    assert_eq!(out, vec![1, 2, 3]);
}

#[test]
fn test_read_no_data() {
    let mut reader = make_reader(vec![vec![1, 2, 3]]);
    let out = do_read(&mut reader, 4);
    assert_eq!(out, vec![1, 2, 3]);
    let out = do_read(&mut reader, 1);
    assert_eq!(out, vec![]);
}

#[test]
fn test_is_empty() {
    let mut reader = make_reader(vec![vec![1]]);
    // Data may still arrive: not empty yet.
    assert!(!reader.is_empty());
    let out = do_read(&mut reader, 2);
    assert_eq!(out, vec![1]);
    // Buffer drained and exhaustion observed: empty for good.
    assert!(reader.is_empty());
    assert!(reader.is_exhausted());
}

#[test]
fn test_prepend_bytes() {
    let mut reader = make_reader(vec![vec![5, 6]]);
    reader.prepend_bytes(vec![1, 2]);
    let out = do_read(&mut reader, 2);
    assert_eq!(out, vec![1, 2]);
    let out = do_read(&mut reader, 2);
    assert_eq!(out, vec![5, 6]);
}

#[test]
fn test_prepend_bytes_after_partial_read() {
    let mut reader = make_reader(vec![vec![1, 2, 3, 4]]);
    let out = do_read(&mut reader, 2);
    assert_eq!(out, vec![1, 2]);
    reader.prepend_bytes(out);
    let out = do_read(&mut reader, 4);
    assert_eq!(out, vec![1, 2, 3, 4]);
}

#[test]
fn test_read_pending() {
    let steps: Vec<ScriptStep<u8>> = vec![ScriptStep::Wait, ScriptStep::Give(vec![7])];
    let mut reader = BytesStream::new(ScriptSource::new(steps));
    assert!(matches!(reader.read(1), ReadPoll::Pending));
    let out = do_read(&mut reader, 1);
    assert_eq!(out, vec![7]);
}

#[test]
fn test_read_partial_before_pending() {
    // A would-block source never hides bytes that are already buffered.
    let steps: Vec<ScriptStep<u8>> = vec![ScriptStep::Give(vec![1, 2]), ScriptStep::Wait];
    let mut reader = BytesStream::new(ScriptSource::new(steps));
    let out = do_read(&mut reader, 4);
    assert_eq!(out, vec![1, 2]);
}

#[test]
fn test_read_zero_len() {
    // A zero-length read returns no bytes and consumes nothing, whether
    // or not data is available.
    let mut reader = make_reader(vec![vec![1, 2]]);
    let out = do_read(&mut reader, 0);
    assert_eq!(out, vec![]);
    let out = do_read(&mut reader, 2);
    assert_eq!(out, vec![1, 2]);
}

#[test]
fn test_read_source_failure() {
    let steps: Vec<ScriptStep<u8>> = vec![ScriptStep::Give(vec![1]), ScriptStep::Fail(42)];
    let mut reader = BytesStream::new(ScriptSource::new(steps));
    let out = do_read(&mut reader, 1);
    assert_eq!(out, vec![1]);
    match reader.read(1) {
        ReadPoll::Failed(e) => assert_eq!(e, 42),
        _ => panic!("expected the source failure to propagate"),
    }
}

#[test]
fn test_peek_consume() {
    let mut reader = make_reader(vec![vec![1, 2, 3]]);
    assert!(matches!(reader.fill_buf(), PollStatus::Ready));
    assert_eq!(reader.peek(), &[1, 2, 3]);
    reader.consume(2);
    assert_eq!(reader.peek(), &[3]);
}

#[test]
fn test_fill_buf_pending() {
    let steps: Vec<ScriptStep<u8>> = vec![ScriptStep::Wait, ScriptStep::Give(vec![9])];
    let mut reader = BytesStream::new(ScriptSource::new(steps));
    assert!(matches!(reader.fill_buf(), PollStatus::Pending));
    assert!(matches!(reader.fill_buf(), PollStatus::Ready));
    assert_eq!(reader.peek(), &[9]);
}

#[test]
fn test_into_parts() {
    let mut reader = make_reader(vec![vec![1, 2], vec![3, 4]]);
    let out = do_read(&mut reader, 1);
    assert_eq!(out, vec![1]);
    let (bytes, mut source) = reader.into_parts();
    // The unconsumed buffered byte comes back untouched...
    assert_eq!(bytes, vec![2]);
    // ...and the source still holds its unread chunks.
    match source.poll_chunk() {
        PollChunk::Chunk(c) => assert_eq!(c, vec![3, 4]),
        _ => panic!("expected the remaining chunk"),
    }
    assert!(matches!(source.poll_chunk(), PollChunk::Done));
}
