//! Requests and responses as plain values, and the wire form of a request.

use crate::chunked::crlf;
use crate::number::{decimal, lemma_decimal_round_trip, parse_unsigned, render_decimal};
use vstd::prelude::*;

verus! {

/// `HTTP/1.0`.
pub open spec fn http_10_text() -> Seq<u8> {
    seq![0x48u8, 0x54u8, 0x54u8, 0x50u8, 0x2fu8, 0x31u8, 0x2eu8, 0x30u8]
}

/// The bytes of [`http_10_text`].
pub fn http_10_text_bytes() -> (r: Vec<u8>)
    ensures
        r@ == http_10_text(),
{
    let r = vec![0x48u8, 0x54u8, 0x54u8, 0x50u8, 0x2fu8, 0x31u8, 0x2eu8, 0x30u8];
    assert(r@ =~= http_10_text());
    r
}

/// `HTTP/1.1`.
pub open spec fn http_11_text() -> Seq<u8> {
    seq![0x48u8, 0x54u8, 0x54u8, 0x50u8, 0x2fu8, 0x31u8, 0x2eu8, 0x31u8]
}

/// The bytes of [`http_11_text`].
pub fn http_11_text_bytes() -> (r: Vec<u8>)
    ensures
        r@ == http_11_text(),
{
    let r = vec![0x48u8, 0x54u8, 0x54u8, 0x50u8, 0x2fu8, 0x31u8, 0x2eu8, 0x31u8];
    assert(r@ =~= http_11_text());
    r
}

/// `Content-Length`, as it is written on the wire.
pub open spec fn content_length_field() -> Seq<u8> {
    seq![
        0x43u8, 0x6fu8, 0x6eu8, 0x74u8, 0x65u8, 0x6eu8, 0x74u8, 0x2du8,
        0x4cu8, 0x65u8, 0x6eu8, 0x67u8, 0x74u8, 0x68u8,
    ]
}

/// The bytes of [`content_length_field`].
pub fn content_length_field_bytes() -> (r: Vec<u8>)
    ensures
        r@ == content_length_field(),
{
    let r = vec![
        0x43u8, 0x6fu8, 0x6eu8, 0x74u8, 0x65u8, 0x6eu8, 0x74u8, 0x2du8,
        0x4cu8, 0x65u8, 0x6eu8, 0x67u8, 0x74u8, 0x68u8,
    ];
    assert(r@ =~= content_length_field());
    r
}

/// `content-length`.
pub open spec fn content_length_name() -> Seq<u8> {
    seq![
        0x63u8, 0x6fu8, 0x6eu8, 0x74u8, 0x65u8, 0x6eu8, 0x74u8, 0x2du8,
        0x6cu8, 0x65u8, 0x6eu8, 0x67u8, 0x74u8, 0x68u8,
    ]
}

/// The bytes of [`content_length_name`].
pub fn content_length_name_bytes() -> (r: Vec<u8>)
    ensures
        r@ == content_length_name(),
{
    let r = vec![
        0x63u8, 0x6fu8, 0x6eu8, 0x74u8, 0x65u8, 0x6eu8, 0x74u8, 0x2du8,
        0x6cu8, 0x65u8, 0x6eu8, 0x67u8, 0x74u8, 0x68u8,
    ];
    assert(r@ =~= content_length_name());
    r
}

/// `transfer-encoding`.
pub open spec fn transfer_encoding_name() -> Seq<u8> {
    seq![
        0x74u8, 0x72u8, 0x61u8, 0x6eu8, 0x73u8, 0x66u8, 0x65u8, 0x72u8,
        0x2du8, 0x65u8, 0x6eu8, 0x63u8, 0x6fu8, 0x64u8, 0x69u8, 0x6eu8,
        0x67u8,
    ]
}

/// The bytes of [`transfer_encoding_name`].
pub fn transfer_encoding_name_bytes() -> (r: Vec<u8>)
    ensures
        r@ == transfer_encoding_name(),
{
    let r = vec![
        0x74u8, 0x72u8, 0x61u8, 0x6eu8, 0x73u8, 0x66u8, 0x65u8, 0x72u8,
        0x2du8, 0x65u8, 0x6eu8, 0x63u8, 0x6fu8, 0x64u8, 0x69u8, 0x6eu8,
        0x67u8,
    ];
    assert(r@ =~= transfer_encoding_name());
    r
}

/// `connection`.
pub open spec fn connection_name() -> Seq<u8> {
    seq![0x63u8, 0x6fu8, 0x6eu8, 0x6eu8, 0x65u8, 0x63u8, 0x74u8, 0x69u8, 0x6fu8, 0x6eu8]
}

/// The bytes of [`connection_name`].
pub fn connection_name_bytes() -> (r: Vec<u8>)
    ensures
        r@ == connection_name(),
{
    let r = vec![0x63u8, 0x6fu8, 0x6eu8, 0x6eu8, 0x65u8, 0x63u8, 0x74u8, 0x69u8, 0x6fu8, 0x6eu8];
    assert(r@ =~= connection_name());
    r
}

/// `location`.
pub open spec fn location_name() -> Seq<u8> {
    seq![0x6cu8, 0x6fu8, 0x63u8, 0x61u8, 0x74u8, 0x69u8, 0x6fu8, 0x6eu8]
}

/// The bytes of [`location_name`].
pub fn location_name_bytes() -> (r: Vec<u8>)
    ensures
        r@ == location_name(),
{
    let r = vec![0x6cu8, 0x6fu8, 0x63u8, 0x61u8, 0x74u8, 0x69u8, 0x6fu8, 0x6eu8];
    assert(r@ =~= location_name());
    r
}

/// `chunked`.
pub open spec fn chunked_value() -> Seq<u8> {
    seq![0x63u8, 0x68u8, 0x75u8, 0x6eu8, 0x6bu8, 0x65u8, 0x64u8]
}

/// The bytes of [`chunked_value`].
pub fn chunked_value_bytes() -> (r: Vec<u8>)
    ensures
        r@ == chunked_value(),
{
    let r = vec![0x63u8, 0x68u8, 0x75u8, 0x6eu8, 0x6bu8, 0x65u8, 0x64u8];
    assert(r@ =~= chunked_value());
    r
}

/// `close`.
pub open spec fn close_value() -> Seq<u8> {
    seq![0x63u8, 0x6cu8, 0x6fu8, 0x73u8, 0x65u8]
}

/// The bytes of [`close_value`].
pub fn close_value_bytes() -> (r: Vec<u8>)
    ensures
        r@ == close_value(),
{
    let r = vec![0x63u8, 0x6cu8, 0x6fu8, 0x73u8, 0x65u8];
    assert(r@ =~= close_value());
    r
}

/// `keep-alive`.
pub open spec fn keep_alive_value() -> Seq<u8> {
    seq![0x6bu8, 0x65u8, 0x65u8, 0x70u8, 0x2du8, 0x61u8, 0x6cu8, 0x69u8, 0x76u8, 0x65u8]
}

/// The bytes of [`keep_alive_value`].
pub fn keep_alive_value_bytes() -> (r: Vec<u8>)
    ensures
        r@ == keep_alive_value(),
{
    let r = vec![0x6bu8, 0x65u8, 0x65u8, 0x70u8, 0x2du8, 0x61u8, 0x6cu8, 0x69u8, 0x76u8, 0x65u8];
    assert(r@ =~= keep_alive_value());
    r
}

/// The protocol version of a message.
#[derive(Clone, Copy, Debug, PartialEq, Eq, Structural)]
pub enum Version {
    Http10,
    Http11,
}

/// One header field. The name is compared without regard to case; the value is
/// opaque bytes.
#[derive(Debug)]
pub struct Header {
    pub name: Vec<u8>,
    pub value: Vec<u8>,
}

/// A URI in its three parts, each as it is written.
#[derive(Debug)]
pub struct Uri {
    pub scheme: Option<Vec<u8>>,
    pub authority: Option<Vec<u8>>,
    pub path_and_query: Option<Vec<u8>>,
}

/// A URI as a value.
pub struct UriView {
    pub scheme: Option<Seq<u8>>,
    pub authority: Option<Seq<u8>>,
    pub path_and_query: Option<Seq<u8>>,
}

/// The bytes of an optional part.
pub open spec fn part_view(part: Option<Vec<u8>>) -> Option<Seq<u8>> {
    match part {
        Some(bytes) => Some(bytes@),
        None => None,
    }
}

impl Uri {
    pub open spec fn view(&self) -> UriView {
        UriView {
            scheme: part_view(self.scheme),
            authority: part_view(self.authority),
            path_and_query: part_view(self.path_and_query),
        }
    }
}

/// Copies a byte string.
pub fn copy_bytes(bytes: &Vec<u8>) -> (r: Vec<u8>)
    ensures
        r@ == bytes@,
{
    vstd::slice::slice_to_vec(bytes.as_slice())
}

/// Copies an optional part of a URI.
pub fn copy_part(part: &Option<Vec<u8>>) -> (r: Option<Vec<u8>>)
    ensures
        part_view(r) == part_view(*part),
{
    match part {
        Some(bytes) => Some(copy_bytes(bytes)),
        None => None,
    }
}

/// A request: headers in order, and the whole body.
#[derive(Debug)]
pub struct Request {
    pub method: Vec<u8>,
    pub uri: Uri,
    pub version: Version,
    pub headers: Vec<Header>,
    pub body: Vec<u8>,
}

/// A response: headers in the order in which they were received, and the whole
/// body.
#[derive(Debug)]
pub struct Response {
    pub version: Version,
    pub status: u16,
    pub headers: Vec<Header>,
    pub body: Vec<u8>,
}

/// A byte, in lower case where it is an ASCII letter.
pub open spec fn lower(b: u8) -> u8 {
    if 0x41 <= b <= 0x5a {
        (b + 0x20) as u8
    } else {
        b
    }
}

/// Two byte strings are the same but for the case of their ASCII letters.
pub open spec fn same_name(a: Seq<u8>, b: Seq<u8>) -> bool {
    a.len() == b.len() && forall|i: int| 0 <= i < a.len() ==> lower(a[i]) == lower(b[i])
}

fn lower_byte(b: u8) -> (r: u8)
    ensures
        r == lower(b),
{
    if 0x41 <= b && b <= 0x5a {
        b + 0x20
    } else {
        b
    }
}

/// Compares two byte strings without regard to the case of ASCII letters.
pub fn names_match(a: &[u8], b: &[u8]) -> (r: bool)
    ensures
        r == same_name(a@, b@),
{
    if a.len() != b.len() {
        return false;
    }
    let mut i: usize = 0;
    while i < a.len()
        invariant
            i <= a.len(),
            a.len() == b.len(),
            forall|j: int| 0 <= j < i ==> lower(a@[j]) == lower(b@[j]),
        decreases a.len() - i,
    {
        if lower_byte(a[i]) != lower_byte(b[i]) {
            return false;
        }
        i += 1;
    }
    true
}

/// Compares two byte strings exactly.
pub fn bytes_equal(a: &[u8], b: &[u8]) -> (r: bool)
    ensures
        r == (a@ == b@),
{
    if a.len() != b.len() {
        return false;
    }
    let mut i: usize = 0;
    while i < a.len()
        invariant
            i <= a.len(),
            a.len() == b.len(),
            forall|j: int| 0 <= j < i ==> a@[j] == b@[j],
        decreases a.len() - i,
    {
        if a[i] != b[i] {
            return false;
        }
        i += 1;
    }
    assert(a@ =~= b@);
    true
}

/// Headers as pairs of name and value.
pub open spec fn fields(headers: Seq<Header>) -> Seq<(Seq<u8>, Seq<u8>)> {
    Seq::new(headers.len(), |i: int| (headers[i].name@, headers[i].value@))
}

/// The value of the first field of the given name.
pub open spec fn field_value(fields: Seq<(Seq<u8>, Seq<u8>)>, name: Seq<u8>) -> Option<Seq<u8>>
    decreases fields.len(),
{
    if fields.len() == 0 {
        None
    } else if same_name(fields[0].0, name) {
        Some(fields[0].1)
    } else {
        field_value(fields.drop_first(), name)
    }
}

/// Finds the value of the first header of the given name.
pub fn find_header<'a>(headers: &'a Vec<Header>, name: &[u8]) -> (r: Option<&'a Vec<u8>>)
    ensures
        match r {
            Some(value) => field_value(fields(headers@), name@) == Some(value@),
            None => field_value(fields(headers@), name@) is None,
        },
{
    let ghost all = fields(headers@);
    let mut i: usize = 0;
    assert(all.subrange(0, all.len() as int) == all);
    while i < headers.len()
        invariant
            i <= headers.len(),
            all == fields(headers@),
            field_value(all, name@) == field_value(all.subrange(i as int, all.len() as int), name@),
        decreases headers.len() - i,
    {
        let ghost rest = all.subrange(i as int, all.len() as int);
        assert(rest.drop_first() == all.subrange(i + 1, all.len() as int));
        assert(rest[0] == all[i as int]);
        if names_match(headers[i].name.as_slice(), name) {
            return Some(&headers[i].value);
        }
        i += 1;
    }
    assert(all.subrange(i as int, all.len() as int).len() == 0);
    None
}

/// The text of a version.
pub open spec fn version_text(version: Version) -> Seq<u8> {
    match version {
        Version::Http10 => http_10_text(),
        Version::Http11 => http_11_text(),
    }
}

/// What stands for the URI on the request line: its path and query.
pub open spec fn request_target(uri: Uri) -> Seq<u8> {
    match uri.path_and_query {
        Some(path) => path@,
        None => Seq::empty(),
    }
}

/// The request line: method, target and version, with one space between them.
pub open spec fn request_line(request: Request) -> Seq<u8> {
    request.method@ + seq![0x20u8] + request_target(request.uri) + seq![0x20u8] + version_text(
        request.version,
    ) + crlf()
}

/// One header on the wire.
pub open spec fn header_line(name: Seq<u8>, value: Seq<u8>) -> Seq<u8> {
    name + seq![0x3au8, 0x20u8] + value + crlf()
}

/// A request's own headers that are sent: all but those named `Content-Length`,
/// in order.
pub open spec fn kept_fields(headers: Seq<Header>) -> Seq<(Seq<u8>, Seq<u8>)>
    decreases headers.len(),
{
    if headers.len() == 0 {
        Seq::empty()
    } else {
        let before = kept_fields(headers.drop_last());
        let last = headers.last();
        if same_name(last.name@, content_length_name()) {
            before
        } else {
            before.push((last.name@, last.value@))
        }
    }
}

/// The headers that are sent: the request's own, then the length of its body.
pub open spec fn sent_fields(request: Request) -> Seq<(Seq<u8>, Seq<u8>)> {
    kept_fields(request.headers@).push(
        (content_length_field(), decimal(request.body@.len())),
    )
}

/// Headers on the wire, one line each.
pub open spec fn lines(fields: Seq<(Seq<u8>, Seq<u8>)>) -> Seq<u8>
    decreases fields.len(),
{
    if fields.len() == 0 {
        Seq::empty()
    } else {
        lines(fields.drop_last()) + header_line(fields.last().0, fields.last().1)
    }
}

/// A request on the wire.
pub open spec fn wire(request: Request) -> Seq<u8> {
    request_line(request) + lines(sent_fields(request)) + crlf() + request.body@
}

/// How many of the fields have the given name.
pub open spec fn count_named(fields: Seq<(Seq<u8>, Seq<u8>)>, name: Seq<u8>) -> nat
    decreases fields.len(),
{
    if fields.len() == 0 {
        0
    } else {
        count_named(fields.drop_last(), name) + if same_name(fields.last().0, name) {
            1nat
        } else {
            0nat
        }
    }
}

/// One more field is one more line.
pub proof fn lemma_lines_push(fields: Seq<(Seq<u8>, Seq<u8>)>, name: Seq<u8>, value: Seq<u8>)
    ensures
        lines(fields.push((name, value))) == lines(fields) + header_line(name, value),
{
    assert(fields.push((name, value)).drop_last() == fields);
}

/// Appends the bytes of one header line.
fn push_line(bytes: &mut Vec<u8>, name: &[u8], value: &[u8])
    ensures
        final(bytes)@ == old(bytes)@ + header_line(name@, value@),
{
    bytes.extend_from_slice(name);
    bytes.push(0x3a);
    bytes.push(0x20);
    bytes.extend_from_slice(value);
    bytes.push(13);
    bytes.push(10);
    assert(bytes@ =~= old(bytes)@ + header_line(name@, value@));
}

/// Writes a request as it goes on the wire: the request line, the headers but
/// for any `Content-Length`, a `Content-Length` with the length of the body, an
/// empty line, and the body.
pub fn serialize(request: &Request) -> (bytes: Vec<u8>)
    ensures
        bytes@ == wire(*request),
{
    let mut bytes: Vec<u8> = Vec::new();
    bytes.extend_from_slice(request.method.as_slice());
    bytes.push(0x20);
    match &request.uri.path_and_query {
        Some(path) => {
            bytes.extend_from_slice(path.as_slice());
        },
        None => {},
    }
    bytes.push(0x20);
    let version = match request.version {
        Version::Http10 => http_10_text_bytes(),
        Version::Http11 => http_11_text_bytes(),
    };
    bytes.extend_from_slice(version.as_slice());
    bytes.push(13);
    bytes.push(10);
    assert(bytes@ =~= request_line(*request));
    let skipped = content_length_name_bytes();
    let mut i: usize = 0;
    while i < request.headers.len()
        invariant
            i <= request.headers.len(),
            skipped@ == content_length_name(),
            bytes@ == request_line(*request) + lines(
                kept_fields(request.headers@.subrange(0, i as int)),
            ),
        decreases request.headers.len() - i,
    {
        let header = &request.headers[i];
        let ghost before = request.headers@.subrange(0, i as int);
        let ghost now = request.headers@.subrange(0, i + 1);
        assert(now.drop_last() == before);
        assert(now.last() == *header);
        if !names_match(header.name.as_slice(), skipped.as_slice()) {
            proof {
                lemma_lines_push(kept_fields(before), header.name@, header.value@);
            }
            push_line(&mut bytes, header.name.as_slice(), header.value.as_slice());
        }
        i += 1;
    }
    assert(request.headers@.subrange(0, i as int) == request.headers@);
    let field = content_length_field_bytes();
    let length = render_decimal(request.body.len());
    proof {
        lemma_lines_push(kept_fields(request.headers@), field@, length@);
    }
    push_line(&mut bytes, field.as_slice(), length.as_slice());
    bytes.push(13);
    bytes.push(10);
    bytes.extend_from_slice(request.body.as_slice());
    assert(bytes@ =~= wire(*request));
    bytes
}

/// None of a request's own headers that are sent is named `Content-Length`.
pub proof fn lemma_kept_fields_have_no_length(headers: Seq<Header>)
    ensures
        count_named(kept_fields(headers), content_length_name()) == 0,
    decreases headers.len(),
{
    if headers.len() > 0 {
        lemma_kept_fields_have_no_length(headers.drop_last());
        let before = kept_fields(headers.drop_last());
        let last = headers.last();
        if !same_name(last.name@, content_length_name()) {
            assert(before.push((last.name@, last.value@)).drop_last() == before);
        }
    }
}

/// The wire form of a request starts with its request line, and of the headers
/// that it holds exactly one is named `Content-Length`: the last, whose value
/// is the length of the body in decimal.
pub proof fn lemma_wire_has_one_content_length(request: Request)
    ensures
        wire(request).subrange(0, request_line(request).len() as int) == request_line(request),
        wire(request) == request_line(request) + lines(sent_fields(request)) + crlf()
            + request.body@,
        count_named(sent_fields(request), content_length_name()) == 1,
        sent_fields(request).last() == (content_length_field(), decimal(request.body@.len())),
        request.body@.len() <= usize::MAX ==> parse_unsigned(sent_fields(request).last().1, 10)
            == Some(request.body@.len() as usize),
{
    if request.body@.len() <= usize::MAX {
        lemma_decimal_round_trip(request.body@.len() as usize);
    }
    lemma_kept_fields_have_no_length(request.headers@);
    let kept = kept_fields(request.headers@);
    let length = (content_length_field(), decimal(request.body@.len()));
    assert(kept.push(length).drop_last() == kept);
    assert(same_name(content_length_field(), content_length_name())) by {
        assert(content_length_field().len() == 14);
        assert(content_length_name().len() == 14);
    }
    assert(wire(request).subrange(0, request_line(request).len() as int) =~= request_line(
        request,
    ));
}

} // verus!
