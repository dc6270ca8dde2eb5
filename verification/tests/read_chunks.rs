use io_http::chunked::{ChunkDecoder, Progress};
use io_http::read_chunks::{ReadStreamChunks, ReadStreamChunksError, ReadStreamChunksResult};
use io_stream::coroutines::read::ReadStream;
use io_stream::io::{StreamIo, StreamOutput};

/// Drives the machine over `encoded`, handing it `step` bytes at most per read.
fn drive(encoded: &[u8], step: usize) -> ReadStreamChunksResult {
    let mut http = ReadStreamChunks::new(ReadStream::with_capacity(step));
    let mut arg = None;
    let mut at = 0;
    loop {
        match http.resume(arg.take()) {
            ReadStreamChunksResult::Io(StreamIo::Read(Err(mut buffer))) => {
                let n = buffer.len().min(encoded.len() - at);
                buffer[..n].copy_from_slice(&encoded[at..at + n]);
                at += n;
                arg = Some(StreamIo::Read(Ok(StreamOutput { buffer, bytes_count: n })));
            }
            other => return other,
        }
    }
}

fn check(encoded: &str, decoded: &str) {
    for step in [1usize, 2, 3, 5, 8, 4096] {
        match drive(encoded.as_bytes(), step) {
            ReadStreamChunksResult::Done(body) => assert_eq!(body, decoded.as_bytes()),
            other => panic!("unexpected result: {other:?}"),
        }
    }
}

#[test]
fn wiki_ru() {
    check(
        "9\r\nchunk 1, \r\n7\r\nchunk 2\r\n0\r\n\r\n",
        "chunk 1, chunk 2",
    );
}

#[test]
fn wiki_fr() {
    let encoded = [
        "27\r\n",
        "Voici les données du premier morceau\r\n\r\n",
        "1C\r\n",
        "et voici un second morceau\r\n\r\n",
        "20\r\n",
        "et voici deux derniers morceaux \r\n",
        "12\r\n",
        "sans saut de ligne\r\n",
        "0\r\n",
        "\r\n",
    ]
    .concat();
    let decoded = [
        "Voici les données du premier morceau\r\n",
        "et voici un second morceau\r\n",
        "et voici deux derniers morceaux ",
        "sans saut de ligne",
    ]
    .concat();
    check(&encoded, &decoded);
}

#[test]
fn github_frewsxcv() {
    check("3\r\nhel\r\nb\r\nlo world!!!\r\n0\r\n\r\n", "hello world!!!");
}

#[test]
fn chunk_extensions_are_dropped() {
    check("5;a=b\r\nhello\r\n0\r\n\r\n", "hello");
    check("5;a=b;c\r\nhello\r\n0;last\r\n\r\n", "hello");
}

#[test]
fn empty_body() {
    check("0\r\n\r\n", "");
}

#[test]
fn size_in_either_case_and_with_leading_zeros() {
    check("a\r\n0123456789\r\n0\r\n\r\n", "0123456789");
    check("A\r\n0123456789\r\n0\r\n\r\n", "0123456789");
    check("00a\r\n0123456789\r\n000\r\n\r\n", "0123456789");
}

#[test]
fn data_may_hold_line_ends() {
    check("6\r\n\r\n\r\n\r\n\r\n0\r\n\r\n", "\r\n\r\n\r\n");
}

#[test]
fn invalid_chunk_size_is_reported_with_its_text() {
    match drive(b"0x5\r\nhello\r\n0\r\n\r\n", 4096) {
        ReadStreamChunksResult::Failed(ReadStreamChunksError::InvalidChunkSize(text)) => {
            assert_eq!(text, "0x5")
        }
        other => panic!("unexpected result: {other:?}"),
    }
    match drive(b"zz;ext\r\n", 3) {
        ReadStreamChunksResult::Failed(ReadStreamChunksError::InvalidChunkSize(text)) => {
            assert_eq!(text, "zz")
        }
        other => panic!("unexpected result: {other:?}"),
    }
    match drive(b"\r\n", 4096) {
        ReadStreamChunksResult::Failed(ReadStreamChunksError::InvalidChunkSize(text)) => {
            assert_eq!(text, "")
        }
        other => panic!("unexpected result: {other:?}"),
    }
}

#[test]
fn invalid_chunk_size_text_is_decoded_lossily() {
    match drive(b"\xff1\r\n", 4096) {
        ReadStreamChunksResult::Failed(ReadStreamChunksError::InvalidChunkSize(text)) => {
            assert_eq!(text, "\u{fffd}1")
        }
        other => panic!("unexpected result: {other:?}"),
    }
}

#[test]
fn chunk_size_too_large_to_count_is_invalid() {
    match drive(b"ffffffffffffffffffffffff\r\n", 4096) {
        ReadStreamChunksResult::Failed(ReadStreamChunksError::InvalidChunkSize(text)) => {
            assert_eq!(text, "ffffffffffffffffffffffff")
        }
        other => panic!("unexpected result: {other:?}"),
    }
    let largest = format!("{:x}\r\n", usize::MAX);
    match drive(largest.as_bytes(), 4096) {
        ReadStreamChunksResult::Failed(ReadStreamChunksError::InvalidChunkSize(text)) => {
            assert_eq!(text, format!("{:x}", usize::MAX))
        }
        other => panic!("unexpected result: {other:?}"),
    }
}

#[test]
fn end_of_stream_before_the_end_of_the_body() {
    for encoded in ["", "5", "5\r\nhel", "5\r\nhello\r\n", "5\r\nhello\r\n0\r\n", "0\r\n\r"] {
        match drive(encoded.as_bytes(), 4096) {
            ReadStreamChunksResult::Failed(ReadStreamChunksError::UnexpectedEof) => {}
            other => panic!("unexpected result for {encoded:?}: {other:?}"),
        }
    }
}

#[test]
fn a_write_is_refused() {
    let mut http = ReadStreamChunks::new(ReadStream::new());
    let arg = Some(StreamIo::Write(Ok(StreamOutput { buffer: vec![0; 4], bytes_count: 4 })));
    match http.resume(arg) {
        ReadStreamChunksResult::Failed(ReadStreamChunksError::ReadStream(_)) => {}
        other => panic!("unexpected result: {other:?}"),
    }
}

#[test]
fn a_request_that_was_not_carried_out_comes_back() {
    let mut http = ReadStreamChunks::new(ReadStream::new());
    match http.resume(Some(StreamIo::Read(Err(vec![7; 3])))) {
        ReadStreamChunksResult::Io(StreamIo::Read(Err(buffer))) => assert_eq!(buffer, vec![7; 3]),
        other => panic!("unexpected result: {other:?}"),
    }
}

#[test]
fn extended_bytes_are_decoded_before_any_read() {
    let mut http = ReadStreamChunks::new(ReadStream::new());
    http.extend(b"3\r\nabc\r\n0\r\n\r\n".to_vec());
    match http.resume(None) {
        ReadStreamChunksResult::Done(body) => assert_eq!(body, b"abc"),
        other => panic!("unexpected result: {other:?}"),
    }
}

#[test]
fn decoder_stops_where_it_needs_input() {
    let mut decoder = ChunkDecoder::new();
    assert!(matches!(decoder.advance(), Progress::NeedRead));
    decoder.feed(b"4\r\nab");
    assert!(matches!(decoder.advance(), Progress::NeedRead));
    decoder.feed(b"cd\r\n0\r");
    assert!(matches!(decoder.advance(), Progress::NeedRead));
    decoder.feed(b"\n\r\n");
    match decoder.advance() {
        Progress::Done(body) => assert_eq!(body, b"abcd"),
        other => panic!("unexpected progress: {other:?}"),
    }
}

#[test]
fn trailer_fields_keep_the_decoder_waiting() {
    let mut decoder = ChunkDecoder::new();
    decoder.feed(b"0\r\nX-Sum: 1\r\n\r\n");
    assert!(matches!(decoder.advance(), Progress::NeedRead));
}

#[test]
fn decoder_reports_the_size_text_as_bytes() {
    let mut decoder = ChunkDecoder::new();
    decoder.feed(b"-1;x\r\n");
    match decoder.advance() {
        Progress::Invalid(text) => assert_eq!(text, b"-1"),
        other => panic!("unexpected progress: {other:?}"),
    }
}

#[test]
fn plus_sign_is_accepted_before_a_size() {
    check("+3\r\nabc\r\n0\r\n\r\n", "abc");
}

#[test]
fn extended_bytes_go_before_the_input_at_hand() {
    let mut http = ReadStreamChunks::new(ReadStream::new());
    http.extend(b"c\r\n0\r\n\r\n".to_vec());
    http.extend(b"3\r\nab".to_vec());
    match http.resume(None) {
        ReadStreamChunksResult::Done(body) => assert_eq!(body, b"abc"),
        other => panic!("unexpected result: {other:?}"),
    }
}

#[test]
fn seeded_bytes_go_before_fed_bytes() {
    let mut decoder = ChunkDecoder::new();
    decoder.feed(b"lo\r\n0\r\n\r\n");
    decoder.seed(b"5\r\nhel".to_vec());
    match decoder.advance() {
        Progress::Done(body) => assert_eq!(body, b"hello"),
        other => panic!("unexpected progress: {other:?}"),
    }
}
