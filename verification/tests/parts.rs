use io_http::head::{check_text, connection_closes, framing, Framing};
use io_http::message::{
    bytes_equal, find_header, names_match, serialize, Header, Request, Uri, Version,
};
use io_http::number::{parse_radix, render_decimal};

fn header(name: &str, value: &str) -> Header {
    Header { name: name.as_bytes().to_vec(), value: value.as_bytes().to_vec() }
}

fn request(method: &str, path: &str, headers: Vec<Header>, body: &[u8]) -> Request {
    Request {
        method: method.as_bytes().to_vec(),
        uri: Uri { scheme: None, authority: None, path_and_query: Some(path.as_bytes().to_vec()) },
        version: Version::Http11,
        headers,
        body: body.to_vec(),
    }
}

#[test]
fn parse_radix_hexadecimal() {
    assert_eq!(parse_radix(b"0", 16), Some(0));
    assert_eq!(parse_radix(b"1C", 16), Some(28));
    assert_eq!(parse_radix(b"1c", 16), Some(28));
    assert_eq!(parse_radix(b"+ff", 16), Some(255));
    assert_eq!(parse_radix(b"0000010", 16), Some(16));
    assert_eq!(parse_radix(b"", 16), None);
    assert_eq!(parse_radix(b"+", 16), None);
    assert_eq!(parse_radix(b"-1", 16), None);
    assert_eq!(parse_radix(b"0x10", 16), None);
    assert_eq!(parse_radix(b" 1", 16), None);
    assert_eq!(parse_radix(b"1g", 16), None);
    assert_eq!(parse_radix(b"++1", 16), None);
}

#[test]
fn parse_radix_agrees_with_std() {
    let texts: [&str; 12] =
        ["0", "7", "10", "+10", "ff", "FF", "zz", "", "+", "-3", "12345678901234567890123", "0x1"];
    for text in texts {
        for radix in [10u8, 16] {
            assert_eq!(
                parse_radix(text.as_bytes(), radix),
                usize::from_str_radix(text, radix as u32).ok(),
                "{text:?} in base {radix}"
            );
        }
    }
}

#[test]
fn parse_radix_at_the_limit() {
    let max = format!("{:x}", usize::MAX);
    assert_eq!(parse_radix(max.as_bytes(), 16), Some(usize::MAX));
    let over = format!("{}0", max);
    assert_eq!(parse_radix(over.as_bytes(), 16), None);
    let max = format!("{}", usize::MAX);
    assert_eq!(parse_radix(max.as_bytes(), 10), Some(usize::MAX));
    let mut over = max.into_bytes();
    let last = over.len() - 1;
    over[last] += 1;
    assert_eq!(parse_radix(&over, 10), None);
}

#[test]
fn render_decimal_values() {
    assert_eq!(render_decimal(0), b"0");
    assert_eq!(render_decimal(9), b"9");
    assert_eq!(render_decimal(10), b"10");
    assert_eq!(render_decimal(1234567), b"1234567");
    assert_eq!(render_decimal(usize::MAX), usize::MAX.to_string().as_bytes());
}

#[test]
fn render_then_parse_gives_the_number_back() {
    for n in [0usize, 1, 9, 10, 99, 100, 65535, usize::MAX] {
        assert_eq!(parse_radix(&render_decimal(n), 10), Some(n));
    }
}

#[test]
fn names_are_compared_without_case() {
    assert!(names_match(b"Content-Length", b"content-length"));
    assert!(names_match(b"CONNECTION", b"connection"));
    assert!(!names_match(b"content-length", b"content_length"));
    assert!(!names_match(b"a", b"ab"));
    assert!(names_match(b"", b""));
    assert!(!names_match(b"@", b"`"));
    assert!(!names_match(b"[", b"{"));
}

#[test]
fn bytes_are_compared_exactly() {
    assert!(bytes_equal(b"chunked", b"chunked"));
    assert!(!bytes_equal(b"chunked", b"Chunked"));
    assert!(!bytes_equal(b"chunked", b"chunke"));
}

#[test]
fn first_header_of_a_name_is_found() {
    let headers = vec![header("A", "1"), header("b", "2"), header("a", "3")];
    assert_eq!(find_header(&headers, b"a"), Some(&b"1".to_vec()));
    assert_eq!(find_header(&headers, b"B"), Some(&b"2".to_vec()));
    assert_eq!(find_header(&headers, b"c"), None);
}

#[test]
fn serialize_get_without_body() {
    let r = request("GET", "/index.html?x=1", vec![header("Host", "example.org")], b"");
    assert_eq!(
        serialize(&r),
        b"GET /index.html?x=1 HTTP/1.1\r\nHost: example.org\r\nContent-Length: 0\r\n\r\n"
    );
}

#[test]
fn serialize_recomputes_content_length() {
    let headers = vec![
        header("content-length", "999"),
        header("Host", "h"),
        header("Content-Length", "1"),
        header("X-A", "b"),
    ];
    let mut r = request("POST", "/p", headers, b"hello");
    r.version = Version::Http10;
    assert_eq!(
        serialize(&r),
        b"POST /p HTTP/1.0\r\nHost: h\r\nX-A: b\r\nContent-Length: 5\r\n\r\nhello"
    );
}

#[test]
fn serialized_request_has_one_content_length() {
    let headers = vec![header("CONTENT-LENGTH", "7"), header("Content-length", "8")];
    let bytes = serialize(&request("PUT", "/", headers, b"0123456789ab"));
    let text = String::from_utf8(bytes).unwrap();
    assert!(text.starts_with("PUT / HTTP/1.1\r\n"));
    assert_eq!(text.to_ascii_lowercase().matches("content-length:").count(), 1);
    assert!(text.contains("Content-Length: 12\r\n"));
    assert!(text.ends_with("\r\n\r\n0123456789ab"));
}

#[test]
fn serialize_without_path_leaves_the_target_empty() {
    let mut r = request("CONNECT", "", vec![], b"");
    r.uri.path_and_query = None;
    assert_eq!(serialize(&r), b"CONNECT  HTTP/1.1\r\nContent-Length: 0\r\n\r\n");
}

#[test]
fn framing_prefers_chunked() {
    let headers = vec![header("Content-Length", "5"), header("Transfer-Encoding", "chunked")];
    assert_eq!(framing(&headers), Framing::Chunked);
}

#[test]
fn framing_by_length() {
    assert_eq!(framing(&vec![header("content-length", "42")]), Framing::Lengthed(42));
    assert_eq!(framing(&vec![header("Content-Length", "0")]), Framing::Lengthed(0));
    assert_eq!(framing(&vec![header("Content-Length", "+7")]), Framing::Lengthed(7));
}

#[test]
fn framing_falls_back_to_the_end_of_the_stream() {
    assert_eq!(framing(&vec![]), Framing::ToEnd);
    assert_eq!(framing(&vec![header("Content-Length", "abc")]), Framing::ToEnd);
    assert_eq!(framing(&vec![header("Content-Length", "-1")]), Framing::ToEnd);
    assert_eq!(framing(&vec![header("Content-Length", " 5")]), Framing::ToEnd);
    assert_eq!(framing(&vec![header("Content-Length", "")]), Framing::ToEnd);
    let huge = usize::MAX.to_string();
    assert_eq!(framing(&vec![header("Content-Length", &huge)]), Framing::ToEnd);
}

#[test]
fn transfer_encoding_value_is_matched_exactly() {
    let headers = vec![header("transfer-encoding", "CHUNKED")];
    assert_eq!(framing(&headers), Framing::ToEnd);
    let headers = vec![header("TRANSFER-ENCODING", "chunked")];
    assert_eq!(framing(&headers), Framing::Chunked);
    let headers = vec![header("Transfer-Encoding", "gzip, chunked")];
    assert_eq!(framing(&headers), Framing::ToEnd);
}

#[test]
fn only_the_first_header_of_a_name_decides() {
    let headers = vec![header("Transfer-Encoding", "gzip"), header("Transfer-Encoding", "chunked")];
    assert_eq!(framing(&headers), Framing::ToEnd);
    let headers = vec![header("Content-Length", "3"), header("Content-Length", "4")];
    assert_eq!(framing(&headers), Framing::Lengthed(3));
}

#[test]
fn connection_closes_over_http_10_and_on_close() {
    assert!(!connection_closes(&vec![], Version::Http11));
    assert!(connection_closes(&vec![], Version::Http10));
    assert!(connection_closes(&vec![header("Connection", "close")], Version::Http11));
    assert!(connection_closes(&vec![header("connection", "close")], Version::Http10));
    assert!(!connection_closes(&vec![header("Connection", "keep-alive")], Version::Http11));
    assert!(connection_closes(&vec![header("Connection", "keep-alive")], Version::Http10));
    assert!(!connection_closes(&vec![header("Connection", "Close")], Version::Http11));
}

#[test]
fn text_is_visible_ascii_or_tab() {
    assert!(check_text(b"/next?x=1"));
    assert!(check_text(b"a\tb c~"));
    assert!(check_text(b""));
    assert!(!check_text(b"a\nb"));
    assert!(!check_text(b"caf\xc3\xa9"));
    assert!(!check_text(b"\x7f"));
}

#[test]
fn plan_of_a_head() {
    let head = io_http::head::Head {
        minor: Some(1),
        code: Some(404),
        headers: vec![header("Content-Length", "12"), header("Connection", "close")],
    };
    let plan = io_http::head::plan(&head);
    assert_eq!(plan.version, Version::Http11);
    assert_eq!(plan.status, 404);
    assert_eq!(plan.framing, Framing::Lengthed(12));
    assert!(!plan.keep_alive);
}

#[test]
fn plan_of_a_bare_head() {
    let head = io_http::head::Head { minor: None, code: None, headers: vec![] };
    let plan = io_http::head::plan(&head);
    assert_eq!(plan.version, Version::Http11);
    assert_eq!(plan.status, 200);
    assert_eq!(plan.framing, Framing::ToEnd);
    assert!(plan.keep_alive);
    let head = io_http::head::Head { minor: Some(0), code: Some(200), headers: vec![] };
    let plan = io_http::head::plan(&head);
    assert_eq!(plan.version, Version::Http10);
    assert!(!plan.keep_alive);
}

#[test]
fn names_and_values_on_the_wire() {
    assert_eq!(io_http::message::http_10_text_bytes(), b"HTTP/1.0");
    assert_eq!(io_http::message::http_11_text_bytes(), b"HTTP/1.1");
    assert_eq!(io_http::message::content_length_field_bytes(), b"Content-Length");
    assert_eq!(io_http::message::content_length_name_bytes(), b"content-length");
    assert_eq!(io_http::message::transfer_encoding_name_bytes(), b"transfer-encoding");
    assert_eq!(io_http::message::connection_name_bytes(), b"connection");
    assert_eq!(io_http::message::location_name_bytes(), b"location");
    assert_eq!(io_http::message::chunked_value_bytes(), b"chunked");
    assert_eq!(io_http::message::close_value_bytes(), b"close");
    assert_eq!(io_http::message::keep_alive_value_bytes(), b"keep-alive");
}
