//! The head of a response: parsing it, by `httparse`, and what it decides of
//! the body and of the connection.

use crate::message::{
    bytes_equal, chunked_value, chunked_value_bytes, close_value, close_value_bytes,
    connection_name, connection_name_bytes, content_length_name, content_length_name_bytes,
    field_value, fields, find_header, keep_alive_value, transfer_encoding_name,
    transfer_encoding_name_bytes,
    Header, Version,
};
use crate::number::{parse_radix, parse_unsigned};
use vstd::prelude::*;

verus! {

/// `httparse::Error`: why a head is malformed.
#[verifier::external_type_specification]
pub struct ExHeadError(httparse::Error);

/// The status line and the headers of a response, as parsed.
#[derive(Debug)]
pub struct Head {
    /// The minor version: `0` for HTTP/1.0, `1` for HTTP/1.1.
    pub minor: Option<u8>,
    /// The status code.
    pub code: Option<u16>,
    /// The headers, in the order in which they were received.
    pub headers: Vec<Header>,
}

/// What parsing the bytes received so far came to.
#[derive(Debug)]
pub enum HeadStatus {
    /// The head is not complete yet.
    Partial,
    /// The head is complete and takes this many of the bytes.
    Complete(usize, Head),
    /// The head is malformed.
    Invalid(httparse::Error),
}

/// A parsed head as a value.
pub struct HeadView {
    pub minor: Option<u8>,
    pub code: Option<u16>,
    pub fields: Seq<(Seq<u8>, Seq<u8>)>,
}

/// The result of parsing as a value.
pub enum HeadParse {
    Partial,
    Complete(nat, HeadView),
    Invalid(httparse::Error),
}

impl Head {
    pub open spec fn view(&self) -> HeadView {
        HeadView { minor: self.minor, code: self.code, fields: fields(self.headers@) }
    }
}

impl HeadStatus {
    pub open spec fn view(&self) -> HeadParse {
        match *self {
            HeadStatus::Partial => HeadParse::Partial,
            HeadStatus::Complete(n, head) => HeadParse::Complete(n as nat, head@),
            HeadStatus::Invalid(err) => HeadParse::Invalid(err),
        }
    }
}

/// What `httparse` makes of the start of a response, given room for `capacity`
/// headers.
pub uninterp spec fn parsed_head(bytes: Seq<u8>, capacity: nat) -> HeadParse;

/// `httparse::Response::parse`, on a fresh `httparse::Response` with room for
/// `capacity` headers, which is reserved at once: the number is kept small. A
/// complete head takes no more bytes than there are.
#[verifier::external_body]
pub(crate) fn parse_head(bytes: &[u8], capacity: usize) -> (r: HeadStatus)
    requires
        capacity <= u16::MAX,
    ensures
        r@ == parsed_head(bytes@, capacity as nat),
        r matches HeadStatus::Complete(n, _) ==> n <= bytes@.len(),
{
    let mut slots = vec![httparse::EMPTY_HEADER; capacity];
    let mut parsed = httparse::Response::new(&mut slots);
    match parsed.parse(bytes) {
        Ok(httparse::Status::Complete(n)) => {
            let pick = |h: &httparse::Header| Header {
                name: h.name.as_bytes().to_vec(),
                value: h.value.to_vec(),
            };
            let headers = parsed.headers.iter().map(pick).collect();
            HeadStatus::Complete(n, Head { minor: parsed.version, code: parsed.code, headers })
        },
        Ok(httparse::Status::Partial) => HeadStatus::Partial,
        Err(err) => HeadStatus::Invalid(err),
    }
}

/// How the body of a response is delimited.
#[derive(Clone, Copy, Debug, PartialEq, Eq, Structural)]
pub enum Framing {
    /// In the chunked transfer coding.
    Chunked,
    /// By its length.
    Lengthed(usize),
    /// By the end of the stream.
    ToEnd,
}

/// The version that a head announces: HTTP/1.0 where it says so, else HTTP/1.1.
pub open spec fn version_of(minor: Option<u8>) -> Version {
    if minor == Some(0u8) {
        Version::Http10
    } else {
        Version::Http11
    }
}

/// The status that a head announces, 200 where it has none.
pub open spec fn status_of(code: Option<u16>) -> u16 {
    match code {
        Some(code) => code,
        None => 200,
    }
}

/// Every byte is visible ASCII or a tab: the bytes are a text.
pub open spec fn is_text(value: Seq<u8>) -> bool {
    forall|i: int| 0 <= i < value.len() ==> 32 <= #[trigger] value[i] < 127 || value[i] == 9
}

/// Tests whether every byte is visible ASCII or a tab.
pub fn check_text(value: &[u8]) -> (r: bool)
    ensures
        r == is_text(value@),
{
    let mut i: usize = 0;
    while i < value.len()
        invariant
            i <= value.len(),
            forall|j: int| 0 <= j < i ==> 32 <= #[trigger] value@[j] < 127 || value@[j] == 9,
        decreases value.len() - i,
    {
        let b = value[i];
        if !(32 <= b && b < 127 || b == 9) {
            return false;
        }
        i += 1;
    }
    true
}

/// The length that a `Content-Length` value announces: a decimal number that
/// this machine can count to and reserve room for.
pub open spec fn announced_length(value: Seq<u8>) -> Option<usize> {
    if is_text(value) {
        match parse_unsigned(value, 10) {
            Some(n) if n <= isize::MAX => Some(n),
            _ => None,
        }
    } else {
        None
    }
}

/// How the body is delimited. The first `Transfer-Encoding` decides where its
/// value is exactly `chunked`; else the first `Content-Length` where it
/// announces a length; else the end of the stream.
pub open spec fn framing_of(fields: Seq<(Seq<u8>, Seq<u8>)>) -> Framing {
    if field_value(fields, transfer_encoding_name()) == Some(chunked_value()) {
        Framing::Chunked
    } else {
        match field_value(fields, content_length_name()) {
            Some(value) => match announced_length(value) {
                Some(n) => Framing::Lengthed(n),
                None => Framing::ToEnd,
            },
            None => Framing::ToEnd,
        }
    }
}

/// Whether the server will close the connection after this response: it does
/// where the first `Connection` header is exactly `close`, and over HTTP/1.0.
pub open spec fn closes(fields: Seq<(Seq<u8>, Seq<u8>)>, version: Version) -> bool {
    field_value(fields, connection_name()) == Some(close_value()) || version == Version::Http10
}

/// Decides how the body of a response is delimited.
pub fn framing(headers: &Vec<Header>) -> (r: Framing)
    ensures
        r == framing_of(fields(headers@)),
{
    let name = transfer_encoding_name_bytes();
    let chunked = chunked_value_bytes();
    match find_header(headers, name.as_slice()) {
        Some(value) => {
            if bytes_equal(value.as_slice(), chunked.as_slice()) {
                return Framing::Chunked;
            }
        },
        None => {},
    }
    let name = content_length_name_bytes();
    match find_header(headers, name.as_slice()) {
        Some(value) => {
            if check_text(value.as_slice()) {
                match parse_radix(value.as_slice(), 10) {
                    Some(n) => {
                        if n <= isize::MAX as usize {
                            return Framing::Lengthed(n);
                        }
                    },
                    None => {},
                }
            }
        },
        None => {},
    }
    Framing::ToEnd
}

/// Decides whether the connection closes after a response.
pub fn connection_closes(headers: &Vec<Header>, version: Version) -> (r: bool)
    ensures
        r == closes(fields(headers@), version),
{
    let name = connection_name_bytes();
    let close = close_value_bytes();
    let said = match find_header(headers, name.as_slice()) {
        Some(value) => bytes_equal(value.as_slice(), close.as_slice()),
        None => false,
    };
    said || version == Version::Http10
}

/// What a head decides of its response.
#[derive(Clone, Copy, Debug, PartialEq, Eq, Structural)]
pub struct Plan {
    /// The version of the response.
    pub version: Version,
    /// The status of the response.
    pub status: u16,
    /// How its body is delimited.
    pub framing: Framing,
    /// Whether the connection can carry another exchange after it.
    pub keep_alive: bool,
}

/// What a parsed head decides of its response.
pub open spec fn plan_of(head: HeadView) -> Plan {
    let version = version_of(head.minor);
    Plan {
        version,
        status: status_of(head.code),
        framing: framing_of(head.fields),
        keep_alive: !closes(head.fields, version),
    }
}

/// Works out what a parsed head decides of its response.
pub fn plan(head: &Head) -> (r: Plan)
    ensures
        r == plan_of(head@),
{
    let version = if head.minor == Some(0u8) {
        Version::Http10
    } else {
        Version::Http11
    };
    let status = match head.code {
        Some(code) => code,
        None => 200,
    };
    Plan {
        version,
        status,
        framing: framing(&head.headers),
        keep_alive: !connection_closes(&head.headers, version),
    }
}

/// The connection stays open exactly for a response over HTTP/1.1 without
/// `Connection: close`. Over HTTP/1.0 it closes whatever the response says, so
/// that this agrees with the rule that HTTP/1.0 stays open on
/// `Connection: keep-alive` on every response but those that say so.
pub proof fn lemma_keep_alive(fields: Seq<(Seq<u8>, Seq<u8>)>, version: Version)
    ensures
        !closes(fields, version) <==> version == Version::Http11 && field_value(
            fields,
            connection_name(),
        ) != Some(close_value()),
        !(version == Version::Http10 && field_value(fields, connection_name()) == Some(
            keep_alive_value(),
        )) ==> (!closes(fields, version) <==> (version == Version::Http11 && field_value(
            fields,
            connection_name(),
        ) != Some(close_value())) || (version == Version::Http10 && field_value(
            fields,
            connection_name(),
        ) == Some(keep_alive_value()))),
{
}

} // verus!
