use io_http::message::{Header, Request, Uri, Version};
use io_http::read_chunks::ReadStreamChunksError;
use io_http::send::{SendHttp, SendHttpError, SendHttpOk, SendHttpResult};
use io_stream::io::{StreamIo, StreamOutput};

fn header(name: &str, value: &str) -> Header {
    Header { name: name.as_bytes().to_vec(), value: value.as_bytes().to_vec() }
}

fn get(path: &str) -> Request {
    Request {
        method: b"GET".to_vec(),
        uri: Uri { scheme: None, authority: None, path_and_query: Some(path.as_bytes().to_vec()) },
        version: Version::Http11,
        headers: vec![header("Host", "example.org")],
        body: Vec::new(),
    }
}

/// What a scripted driver saw: the bytes written, the number of reads, and how
/// the machine ended.
struct Run {
    written: Vec<u8>,
    reads: usize,
    end: SendHttpResult,
}

/// Drives the machine against a peer that answers with `response`, `step`
/// bytes at most per read, and then closes.
fn drive(request: Request, response: &[u8], step: usize) -> Run {
    let mut send = SendHttp::new(request);
    let mut arg = None;
    let mut written = Vec::new();
    let mut reads = 0;
    let mut at = 0;
    loop {
        match send.resume(arg.take()) {
            SendHttpResult::Io(StreamIo::Write(Err(bytes))) => {
                written.extend_from_slice(&bytes);
                let bytes_count = bytes.len();
                arg = Some(StreamIo::Write(Ok(StreamOutput { buffer: bytes, bytes_count })));
            }
            SendHttpResult::Io(StreamIo::Read(Err(mut buffer))) => {
                reads += 1;
                let n = buffer.len().min(step).min(response.len() - at);
                buffer[..n].copy_from_slice(&response[at..at + n]);
                at += n;
                arg = Some(StreamIo::Read(Ok(StreamOutput { buffer, bytes_count: n })));
            }
            end => return Run { written, reads, end },
        }
    }
}

fn done(run: Run) -> SendHttpOk {
    match run.end {
        SendHttpResult::Done(ok) => ok,
        other => panic!("unexpected result: {other:?}"),
    }
}

#[test]
fn content_length_body() {
    for step in [1usize, 7, 4096] {
        let run = drive(get("/"), b"HTTP/1.1 200 OK\r\nContent-Length: 5\r\n\r\nhello", step);
        assert_eq!(run.written, b"GET / HTTP/1.1\r\nHost: example.org\r\nContent-Length: 0\r\n\r\n");
        let ok = done(run);
        assert_eq!(ok.response.body, b"hello");
        assert_eq!(ok.response.body.len(), 5);
        assert_eq!(ok.response.status, 200);
        assert_eq!(ok.response.version, Version::Http11);
        assert_eq!(ok.response.headers.len(), 1);
        assert_eq!(ok.response.headers[0].name, b"Content-Length");
        assert_eq!(ok.response.headers[0].value, b"5");
        assert!(ok.keep_alive);
        assert_eq!(ok.request.method, b"GET");
        assert_eq!(ok.request.uri.path_and_query, Some(b"/".to_vec()));
    }
}

#[test]
fn chunked_body() {
    let response =
        b"HTTP/1.1 200 OK\r\nTransfer-Encoding: chunked\r\n\r\n9\r\nchunk 1, \r\n7\r\nchunk 2\r\n0\r\n\r\n";
    for step in [1usize, 3, 10, 4096] {
        let ok = done(drive(get("/"), response, step));
        assert_eq!(ok.response.body, b"chunk 1, chunk 2");
        assert!(ok.keep_alive);
    }
}

#[test]
fn chunked_body_in_two_chunks_of_uneven_size() {
    let response =
        b"HTTP/1.1 200 OK\r\ntransfer-encoding: chunked\r\n\r\n3\r\nhel\r\nb\r\nlo world!!!\r\n0\r\n\r\n";
    for step in [1usize, 4, 4096] {
        let ok = done(drive(get("/"), response, step));
        assert_eq!(ok.response.body, b"hello world!!!");
        assert!(ok.keep_alive);
    }
}

#[test]
fn http_10_body_runs_to_the_end_of_the_stream() {
    for step in [1usize, 4096] {
        let ok = done(drive(get("/"), b"HTTP/1.0 200 OK\r\n\r\nhi", step));
        assert_eq!(ok.response.body, b"hi");
        assert_eq!(ok.response.version, Version::Http10);
        assert!(ok.response.headers.is_empty());
        assert!(!ok.keep_alive);
    }
}

#[test]
fn zero_length_body_needs_no_further_read() {
    let run = drive(get("/"), b"HTTP/1.1 204 No Content\r\nContent-Length: 0\r\n\r\n", 4096);
    assert_eq!(run.reads, 1);
    let ok = done(run);
    assert!(ok.response.body.is_empty());
    assert_eq!(ok.response.status, 204);
    assert!(ok.keep_alive);
}

#[test]
fn connection_close_ends_keep_alive() {
    let ok = done(drive(
        get("/"),
        b"HTTP/1.1 200 OK\r\nConnection: close\r\nContent-Length: 2\r\n\r\nok",
        4096,
    ));
    assert_eq!(ok.response.body, b"ok");
    assert!(!ok.keep_alive);
}

#[test]
fn http_10_closes_whatever_it_says() {
    let ok = done(drive(
        get("/"),
        b"HTTP/1.0 200 OK\r\nConnection: keep-alive\r\nContent-Length: 2\r\n\r\nok",
        4096,
    ));
    assert!(!ok.keep_alive);
}

#[test]
fn upper_case_chunked_is_not_chunked() {
    let ok = done(drive(
        get("/"),
        b"HTTP/1.1 200 OK\r\ntransfer-encoding: CHUNKED\r\n\r\n2\r\nab\r\n0\r\n\r\n",
        4096,
    ));
    assert_eq!(ok.response.body, b"2\r\nab\r\n0\r\n\r\n");
}

#[test]
fn bytes_beyond_the_length_are_left_out_of_the_body() {
    for step in [1usize, 3, 4096] {
        let ok = done(drive(get("/"), b"HTTP/1.1 200 OK\r\nContent-Length: 2\r\n\r\nokmore", step));
        assert_eq!(ok.response.body, b"ok");
    }
    let ok = done(drive(get("/"), b"HTTP/1.1 200 OK\r\nContent-Length: 0\r\n\r\nmore", 4096));
    assert_eq!(ok.response.body, b"");
}

#[test]
fn read_that_reports_more_than_was_asked_for_is_cut() {
    let mut send = SendHttp::new(get("/"));
    let bytes = match send.resume(None) {
        SendHttpResult::Io(StreamIo::Write(Err(bytes))) => bytes,
        other => panic!("unexpected result: {other:?}"),
    };
    let n = bytes.len();
    let arg = Some(StreamIo::Write(Ok(StreamOutput { buffer: bytes, bytes_count: n })));
    assert!(matches!(send.resume(arg), SendHttpResult::Io(StreamIo::Read(Err(_)))));
    let head = b"HTTP/1.1 200 OK\r\nContent-Length: 4\r\n\r\nab".to_vec();
    let n = head.len();
    let arg = Some(StreamIo::Read(Ok(StreamOutput { buffer: head, bytes_count: n })));
    assert!(matches!(send.resume(arg), SendHttpResult::Io(StreamIo::Read(Err(_)))));
    let arg = Some(StreamIo::Read(Ok(StreamOutput { buffer: b"cdefgh".to_vec(), bytes_count: 6 })));
    match send.resume(arg) {
        SendHttpResult::Done(ok) => assert_eq!(ok.response.body, b"abcd"),
        other => panic!("unexpected result: {other:?}"),
    }
}

#[test]
fn end_of_stream_in_the_head() {
    let run = drive(get("/"), b"HTTP/1.1 200 OK\r\nContent-Le", 4096);
    assert!(matches!(run.end, SendHttpResult::Failed(SendHttpError::UnexpectedEof)));
}

#[test]
fn end_of_stream_in_a_lengthed_body() {
    let run = drive(get("/"), b"HTTP/1.1 200 OK\r\nContent-Length: 5\r\n\r\nhel", 4096);
    assert!(matches!(run.end, SendHttpResult::Failed(SendHttpError::ReadStreamExact(_))));
}

#[test]
fn end_of_stream_in_a_chunked_body() {
    let run = drive(get("/"), b"HTTP/1.1 200 OK\r\nTransfer-Encoding: chunked\r\n\r\n5\r\nhel", 4096);
    assert!(matches!(
        run.end,
        SendHttpResult::Failed(SendHttpError::ReadStreamChunks(
            ReadStreamChunksError::UnexpectedEof
        ))
    ));
}

#[test]
fn invalid_chunk_size_in_a_response() {
    let run = drive(get("/"), b"HTTP/1.1 200 OK\r\nTransfer-Encoding: chunked\r\n\r\nxyz\r\n", 4096);
    match run.end {
        SendHttpResult::Failed(SendHttpError::ReadStreamChunks(
            ReadStreamChunksError::InvalidChunkSize(text),
        )) => assert_eq!(text, "xyz"),
        other => panic!("unexpected result: {other:?}"),
    }
}

#[test]
fn malformed_head() {
    let run = drive(get("/"), b"HTTP/1.1 abc OK\r\n\r\n", 4096);
    assert!(matches!(
        run.end,
        SendHttpResult::Failed(SendHttpError::ParseResponseHeaders(httparse::Error::Status))
    ));
    let run = drive(get("/"), b"FTP/1.1 200 OK\r\n\r\n", 4096);
    assert!(matches!(
        run.end,
        SendHttpResult::Failed(SendHttpError::ParseResponseHeaders(httparse::Error::Version))
    ));
}

#[test]
fn too_many_headers() {
    let mut response = b"HTTP/1.1 200 OK\r\n".to_vec();
    for i in 0..65 {
        response.extend_from_slice(format!("X-{i}: v\r\n").as_bytes());
    }
    response.extend_from_slice(b"\r\n");
    let run = drive(get("/"), &response, 1 << 16);
    assert!(matches!(
        run.end,
        SendHttpResult::Failed(SendHttpError::ParseResponseHeaders(
            httparse::Error::TooManyHeaders
        ))
    ));
}

#[test]
fn sixty_four_headers_are_kept_in_order() {
    let mut response = b"HTTP/1.1 200 OK\r\n".to_vec();
    for i in 0..63 {
        response.extend_from_slice(format!("X-{i}: v{i}\r\n").as_bytes());
    }
    response.extend_from_slice(b"Content-Length: 0\r\n\r\n");
    let ok = done(drive(get("/"), &response, 1 << 16));
    assert_eq!(ok.response.headers.len(), 64);
    assert_eq!(ok.response.headers[0].name, b"X-0");
    assert_eq!(ok.response.headers[62].value, b"v62");
    assert_eq!(ok.response.headers[63].name, b"Content-Length");
}

#[test]
fn write_of_no_byte_is_the_end_of_the_stream() {
    let mut send = SendHttp::new(get("/"));
    let bytes = match send.resume(None) {
        SendHttpResult::Io(StreamIo::Write(Err(bytes))) => bytes,
        other => panic!("unexpected result: {other:?}"),
    };
    let arg = Some(StreamIo::Write(Ok(StreamOutput { buffer: bytes, bytes_count: 0 })));
    assert!(matches!(send.resume(arg), SendHttpResult::Failed(SendHttpError::UnexpectedEof)));
}

#[test]
fn a_read_is_refused_while_sending() {
    let mut send = SendHttp::new(get("/"));
    let arg = Some(StreamIo::Read(Ok(StreamOutput { buffer: vec![0; 2], bytes_count: 2 })));
    assert!(matches!(send.resume(arg), SendHttpResult::Failed(SendHttpError::WriteStream(_))));
}

#[test]
fn a_write_is_refused_while_receiving() {
    let mut send = SendHttp::new(get("/"));
    let bytes = match send.resume(None) {
        SendHttpResult::Io(StreamIo::Write(Err(bytes))) => bytes,
        other => panic!("unexpected result: {other:?}"),
    };
    let n = bytes.len();
    let wrote = || Some(StreamIo::Write(Ok(StreamOutput { buffer: vec![0; n], bytes_count: n })));
    assert!(matches!(send.resume(wrote()), SendHttpResult::Io(StreamIo::Read(Err(_)))));
    assert!(matches!(send.resume(wrote()), SendHttpResult::Failed(SendHttpError::ReadStream(_))));
}

#[test]
fn body_is_sent_with_its_length() {
    let mut request = get("/submit");
    request.method = b"POST".to_vec();
    request.headers.push(header("content-length", "1000"));
    request.body = b"a=1&b=2".to_vec();
    let run = drive(request, b"HTTP/1.1 200 OK\r\nContent-Length: 0\r\n\r\n", 4096);
    assert_eq!(
        run.written,
        b"POST /submit HTTP/1.1\r\nHost: example.org\r\nContent-Length: 7\r\n\r\na=1&b=2"
    );
    let ok = done(run);
    assert_eq!(ok.request.body, b"a=1&b=2");
}

#[test]
fn request_can_be_had_back_after_an_error() {
    let mut send = SendHttp::new(get("/lost"));
    let arg = Some(StreamIo::Read(Ok(StreamOutput { buffer: vec![0; 2], bytes_count: 2 })));
    assert!(matches!(send.resume(arg), SendHttpResult::Failed(_)));
    let request = send.into_request();
    assert_eq!(request.uri.path_and_query, Some(b"/lost".to_vec()));
    assert_eq!(request.headers.len(), 1);
}
