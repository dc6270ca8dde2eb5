use io_http::message::{Header, Request, Response, Uri, Version};
use io_http::redirect::{
    redirect, FollowHttpRedirects, FollowHttpRedirectsError, FollowHttpRedirectsResult,
};
use io_http::send::{SendHttp, SendHttpOk};
use io_stream::io::{StreamIo, StreamOutput};

fn header(name: &str, value: &str) -> Header {
    Header { name: name.as_bytes().to_vec(), value: value.as_bytes().to_vec() }
}

fn part(text: &str) -> Option<Vec<u8>> {
    Some(text.as_bytes().to_vec())
}

fn origin(path: &str) -> Uri {
    Uri { scheme: None, authority: None, path_and_query: part(path) }
}

fn absolute(scheme: &str, authority: &str, path: &str) -> Uri {
    Uri { scheme: part(scheme), authority: part(authority), path_and_query: part(path) }
}

fn get(uri: Uri) -> Request {
    Request {
        method: b"GET".to_vec(),
        uri,
        version: Version::Http11,
        headers: vec![header("Host", "example.org")],
        body: Vec::new(),
    }
}

fn exchange(uri: Uri, status: u16, headers: Vec<Header>, keep_alive: bool) -> SendHttpOk {
    SendHttpOk {
        request: get(uri),
        response: Response { version: Version::Http11, status, headers, body: Vec::new() },
        keep_alive,
    }
}

/// What a scripted driver saw.
struct Run {
    written: Vec<Vec<u8>>,
    resets: Vec<Uri>,
    end: FollowHttpRedirectsResult,
}

/// Drives the machine against a peer that sends `stream` on one connection and
/// goes on with the same bytes after a reset. `max_resets` bounds the resets
/// that the driver carries out.
fn drive(request: Request, stream: &[u8], max_resets: usize) -> Run {
    let mut follow = FollowHttpRedirects::new(SendHttp::new(request));
    let mut arg = None;
    let mut written = Vec::new();
    let mut resets = Vec::new();
    let mut at = 0;
    loop {
        match follow.resume(arg.take()) {
            FollowHttpRedirectsResult::Io(StreamIo::Write(Err(bytes))) => {
                written.push(bytes.clone());
                let bytes_count = bytes.len();
                arg = Some(StreamIo::Write(Ok(StreamOutput { buffer: bytes, bytes_count })));
            }
            FollowHttpRedirectsResult::Io(StreamIo::Read(Err(mut buffer))) => {
                // One response per read, so that none runs into the next.
                let rest = &stream[at..];
                let end = rest
                    .windows(5)
                    .skip(1)
                    .position(|w| w == b"HTTP/")
                    .map(|i| i + 1)
                    .unwrap_or(rest.len());
                let n = buffer.len().min(end);
                buffer[..n].copy_from_slice(&rest[..n]);
                at += n;
                arg = Some(StreamIo::Read(Ok(StreamOutput { buffer, bytes_count: n })));
            }
            FollowHttpRedirectsResult::Reset(uri) if resets.len() < max_resets => {
                resets.push(uri);
            }
            end => return Run { written, resets, end },
        }
    }
}

#[test]
fn redirection_on_the_same_connection() {
    let stream = b"HTTP/1.1 301 Moved\r\nLocation: /next\r\nContent-Length: 0\r\n\r\nHTTP/1.1 200 OK\r\nContent-Length: 2\r\n\r\nok";
    let run = drive(get(origin("/")), stream, 8);
    assert!(run.resets.is_empty());
    assert_eq!(run.written.len(), 2);
    assert!(run.written[0].starts_with(b"GET / HTTP/1.1\r\n"));
    assert!(run.written[1].starts_with(b"GET /next HTTP/1.1\r\n"));
    match run.end {
        FollowHttpRedirectsResult::Done(ok) => {
            assert_eq!(ok.response.body, b"ok");
            assert_eq!(ok.response.status, 200);
            assert!(ok.keep_alive);
            assert_eq!(ok.request.uri.path_and_query, part("/next"));
        }
        other => panic!("unexpected result: {other:?}"),
    }
}

#[test]
fn redirection_to_another_host_asks_for_a_reset() {
    let stream = b"HTTP/1.1 302 Found\r\nLocation: https://other.example/\r\nContent-Length: 0\r\n\r\n";
    let run = drive(get(absolute("http", "example.org", "/")), stream, 0);
    assert_eq!(run.written.len(), 1);
    match run.end {
        FollowHttpRedirectsResult::Reset(uri) => {
            assert_eq!(uri.scheme, part("https"));
            assert_eq!(uri.authority, part("other.example"));
            assert_eq!(uri.path_and_query, part("/"));
        }
        other => panic!("unexpected result: {other:?}"),
    }
}

#[test]
fn machine_goes_on_after_a_reset() {
    let stream = b"HTTP/1.1 302 Found\r\nLocation: https://other.example/a?b\r\nContent-Length: 0\r\n\r\nHTTP/1.1 200 OK\r\nContent-Length: 4\r\n\r\ndone";
    let run = drive(get(absolute("http", "example.org", "/")), stream, 8);
    assert_eq!(run.resets.len(), 1);
    assert_eq!(run.resets[0].authority, part("other.example"));
    assert_eq!(run.written.len(), 2);
    assert!(run.written[1].starts_with(b"GET /a?b HTTP/1.1\r\n"));
    match run.end {
        FollowHttpRedirectsResult::Done(ok) => assert_eq!(ok.response.body, b"done"),
        other => panic!("unexpected result: {other:?}"),
    }
}

#[test]
fn closed_connection_asks_for_a_reset() {
    let stream = b"HTTP/1.1 301 Moved\r\nLocation: /next\r\nConnection: close\r\nContent-Length: 0\r\n\r\n";
    let run = drive(get(origin("/")), stream, 0);
    match run.end {
        FollowHttpRedirectsResult::Reset(uri) => {
            assert_eq!(uri.scheme, None);
            assert_eq!(uri.path_and_query, part("/next"));
        }
        other => panic!("unexpected result: {other:?}"),
    }
}

#[test]
fn four_redirections_are_followed_and_no_more() {
    let hop = b"HTTP/1.1 302 Found\r\nLocation: /again\r\nContent-Length: 0\r\n\r\n";
    let mut stream = Vec::new();
    for _ in 0..10 {
        stream.extend_from_slice(hop);
    }
    let run = drive(get(origin("/")), &stream, 8);
    assert_eq!(run.written.len(), 4);
    assert!(matches!(
        run.end,
        FollowHttpRedirectsResult::Failed(FollowHttpRedirectsError::TooManyRedirects)
    ));
}

#[test]
fn three_redirections_reach_the_target() {
    let hop = b"HTTP/1.1 307 Temporary Redirect\r\nLocation: /again\r\nContent-Length: 0\r\n\r\n";
    let mut stream = Vec::new();
    for _ in 0..3 {
        stream.extend_from_slice(hop);
    }
    stream.extend_from_slice(b"HTTP/1.1 200 OK\r\nContent-Length: 1\r\n\r\n!");
    let run = drive(get(origin("/")), &stream, 8);
    assert_eq!(run.written.len(), 4);
    match run.end {
        FollowHttpRedirectsResult::Done(ok) => assert_eq!(ok.response.body, b"!"),
        other => panic!("unexpected result: {other:?}"),
    }
}

#[test]
fn new_machine_may_follow_four_redirections() {
    let follow = FollowHttpRedirects::new(SendHttp::new(get(origin("/"))));
    assert_eq!(follow.remaining, 4);
}

#[test]
fn machine_without_redirections_left_fails_at_once() {
    let mut follow = FollowHttpRedirects::new(SendHttp::new(get(origin("/"))));
    follow.remaining = 0;
    assert!(matches!(
        follow.resume(None),
        FollowHttpRedirectsResult::Failed(FollowHttpRedirectsError::TooManyRedirects)
    ));
}

#[test]
fn response_that_is_no_redirection_is_the_result() {
    let run = drive(get(origin("/")), b"HTTP/1.1 404 Not Found\r\nLocation: /x\r\nContent-Length: 0\r\n\r\n", 8);
    match run.end {
        FollowHttpRedirectsResult::Done(ok) => assert_eq!(ok.response.status, 404),
        other => panic!("unexpected result: {other:?}"),
    }
}

#[test]
fn redirection_without_location() {
    let run = drive(get(origin("/")), b"HTTP/1.1 301 Moved\r\nContent-Length: 0\r\n\r\n", 8);
    assert!(matches!(
        run.end,
        FollowHttpRedirectsResult::Failed(FollowHttpRedirectsError::MissingLocationHeader)
    ));
}

#[test]
fn location_that_is_no_text() {
    let ok = exchange(origin("/"), 302, vec![Header { name: b"Location".to_vec(), value: b"/caf\xe9".to_vec() }], true);
    match redirect(ok) {
        Err(FollowHttpRedirectsError::InvalidLocationHeader(why, value)) => {
            assert_eq!(value, b"/caf\xe9");
            assert!(why.is_some());
        }
        other => panic!("unexpected result: {other:?}"),
    }
}

#[test]
fn location_that_is_no_uri() {
    let ok = exchange(origin("/"), 302, vec![header("Location", "http://a b/")], true);
    match redirect(ok) {
        Err(FollowHttpRedirectsError::InvalidLocationUri(why, value)) => {
            assert_eq!(value, b"http://a b/");
            assert!(why.is_some());
        }
        other => panic!("unexpected result: {other:?}"),
    }
}

#[test]
fn location_that_cannot_replace_the_uri() {
    // An authority alone, merged into an absolute URI, leaves it without a path.
    let ok = exchange(absolute("http", "example.org", "/"), 302, vec![header("Location", "other.example")], true);
    match redirect(ok) {
        Err(FollowHttpRedirectsError::InvalidLocationUri(why, value)) => {
            assert_eq!(value, b"other.example");
            assert!(why.is_none());
        }
        other => panic!("unexpected result: {other:?}"),
    }
}

#[test]
fn relative_location_keeps_scheme_and_authority() {
    let ok = exchange(absolute("http", "example.org", "/a"), 301, vec![header("location", "/b?c=d")], true);
    let hop = redirect(ok).unwrap();
    assert_eq!(hop.request.uri.scheme, part("http"));
    assert_eq!(hop.request.uri.authority, part("example.org"));
    assert_eq!(hop.request.uri.path_and_query, part("/b?c=d"));
    assert_eq!(hop.target.scheme, part("http"));
    assert_eq!(hop.target.authority, part("example.org"));
    assert_eq!(hop.target.path_and_query, part("/b?c=d"));
    assert_eq!(hop.request.method, b"GET");
    assert_eq!(hop.request.headers.len(), 1);
    // The location names no scheme, the request did: the stream is not reused.
    assert!(hop.reset);
}

#[test]
fn absolute_location_to_the_same_place_reuses_the_stream() {
    let ok = exchange(absolute("http", "example.org", "/a"), 301, vec![header("Location", "HTTP://EXAMPLE.org/b")], true);
    let hop = redirect(ok).unwrap();
    assert!(!hop.reset);
    assert_eq!(hop.request.uri.path_and_query, part("/b"));
}

#[test]
fn absolute_location_replaces_scheme_and_authority() {
    let ok = exchange(absolute("http", "example.org", "/a"), 301, vec![header("Location", "https://other.example:8443/b")], true);
    let hop = redirect(ok).unwrap();
    assert!(hop.reset);
    assert_eq!(hop.request.uri.scheme, part("https"));
    assert_eq!(hop.request.uri.authority, part("other.example:8443"));
    assert_eq!(hop.request.uri.path_and_query, part("/b"));
}

#[test]
fn first_location_decides() {
    let ok = exchange(origin("/"), 303, vec![header("Location", "/one"), header("Location", "/two")], true);
    let hop = redirect(ok).unwrap();
    assert_eq!(hop.request.uri.path_and_query, part("/one"));
    assert!(!hop.reset);
}

#[test]
fn merge_takes_the_parts_that_the_location_has() {
    let ok = exchange(absolute("http", "example.org", "/a"), 302, vec![], true);
    let location = Uri { scheme: None, authority: part("other.example"), path_and_query: part("/b") };
    let hop = io_http::redirect::merge(ok, location, b"//other.example/b".to_vec()).unwrap();
    assert_eq!(hop.request.uri.scheme, part("http"));
    assert_eq!(hop.request.uri.authority, part("other.example"));
    assert_eq!(hop.request.uri.path_and_query, part("/b"));
    assert!(hop.reset);
}

#[test]
fn merge_refuses_a_scheme_without_authority() {
    let ok = exchange(origin("/a"), 302, vec![], true);
    let location = Uri { scheme: part("https"), authority: None, path_and_query: part("/b") };
    match io_http::redirect::merge(ok, location, b"https:/b".to_vec()) {
        Err(FollowHttpRedirectsError::InvalidLocationUri(None, value)) => {
            assert_eq!(value, b"https:/b")
        }
        other => panic!("unexpected result: {other:?}"),
    }
}

#[test]
fn merge_keeps_the_stream_where_scheme_and_authority_agree() {
    let ok = exchange(absolute("https", "Example.org", "/a"), 308, vec![], true);
    let location = absolute("HTTPS", "example.ORG", "/b");
    let hop = io_http::redirect::merge(ok, location, Vec::new()).unwrap();
    assert!(!hop.reset);
    let ok = exchange(absolute("https", "example.org", "/a"), 308, vec![], false);
    let location = absolute("https", "example.org", "/b");
    let hop = io_http::redirect::merge(ok, location, Vec::new()).unwrap();
    assert!(hop.reset);
}

#[test]
fn limit_of_redirections_can_be_chosen_and_read() {
    let follow = FollowHttpRedirects::with_limit(SendHttp::new(get(origin("/"))), 1);
    assert_eq!(follow.redirects_left(), 1);
    assert_eq!(follow.remaining, 1);
    let follow = FollowHttpRedirects::new(SendHttp::new(get(origin("/"))));
    assert_eq!(follow.redirects_left(), 4);
}

#[test]
fn machine_with_a_limit_of_one_follows_one_redirection() {
    let hop = b"HTTP/1.1 302 Found\r\nLocation: /again\r\nContent-Length: 0\r\n\r\n";
    let mut follow = FollowHttpRedirects::with_limit(SendHttp::new(get(origin("/"))), 1);
    let mut arg = None;
    let mut written = 0;
    let end = loop {
        match follow.resume(arg.take()) {
            FollowHttpRedirectsResult::Io(StreamIo::Write(Err(bytes))) => {
                written += 1;
                let bytes_count = bytes.len();
                arg = Some(StreamIo::Write(Ok(StreamOutput { buffer: bytes, bytes_count })));
            }
            FollowHttpRedirectsResult::Io(StreamIo::Read(Err(mut buffer))) => {
                buffer[..hop.len()].copy_from_slice(hop);
                arg = Some(StreamIo::Read(Ok(StreamOutput { buffer, bytes_count: hop.len() })));
            }
            end => break end,
        }
    };
    assert_eq!(written, 1);
    assert!(matches!(
        end,
        FollowHttpRedirectsResult::Failed(FollowHttpRedirectsError::TooManyRedirects)
    ));
    assert_eq!(follow.redirects_left(), 0);
}

#[test]
fn location_with_a_control_character() {
    let ok = exchange(origin("/"), 302, vec![Header { name: b"Location".to_vec(), value: b"/a\nb".to_vec() }], true);
    match redirect(ok) {
        Err(FollowHttpRedirectsError::InvalidLocationHeader(why, value)) => {
            assert_eq!(value, b"/a\nb");
            assert!(why.is_none());
        }
        other => panic!("unexpected result: {other:?}"),
    }
}
