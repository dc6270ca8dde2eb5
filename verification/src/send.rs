//! The machine that sends one request and receives its response.

use crate::chunked::{
    concat, encodable, encode, has_read, is_extension, join, lemma_feed_after_starving,
    lemma_round_trip, lemma_seed_without_input, lemma_settle, lemma_start_of_body_starves,
    lemma_starved_has_read, none_empty, run, settle, Chunk, Machine, Outcome,
};
use crate::head::{
    framing_of, parse_head, parsed_head, plan, plan_of, Framing, HeadParse, HeadStatus, HeadView,
};
use crate::message::{
    fields, serialize, wire, Header, Request, Response, Uri, UriView, Version,
};
use crate::read_chunks::{
    resumed as chunks_resumed, ReadStreamChunks, ReadStreamChunksError,
    ReadStreamChunksResult,
};
use crate::stream::{
    accurate, exact_extend, exact_goal, exact_held, held_after, output_bytes, reported_bytes,
    to_end_extend, to_end_held, write_pending,
};
use io_stream::coroutines::read::{ReadStream, ReadStreamError, ReadStreamResult};
use io_stream::coroutines::read_exact::{
    ReadStreamExact, ReadStreamExactError, ReadStreamExactResult,
};
use io_stream::coroutines::read_to_end::{
    ReadStreamToEnd, ReadStreamToEndError, ReadStreamToEndResult,
};
use io_stream::coroutines::write::{WriteStream, WriteStreamError, WriteStreamResult};
use io_stream::io::StreamIo;
use vstd::prelude::*;

verus! {

/// Why the machine stopped.
#[derive(Debug)]
pub enum SendHttpError {
    /// The stream ended before the exchange did.
    UnexpectedEof,
    /// The head of the response is malformed.
    ParseResponseHeaders(httparse::Error),
    ReadStream(ReadStreamError),
    ReadStreamChunks(ReadStreamChunksError),
    ReadStreamExact(ReadStreamExactError),
    ReadStreamToEnd(ReadStreamToEndError),
    WriteStream(WriteStreamError),
}

/// What a call of [`SendHttp::resume`] came to.
#[derive(Debug)]
pub enum SendHttpResult {
    /// The exchange is complete.
    Done(SendHttpOk),
    /// The machine stopped on an error.
    Failed(SendHttpError),
    /// The machine wants this I/O done.
    Io(StreamIo),
}

/// A complete exchange.
#[derive(Debug)]
pub struct SendHttpOk {
    /// The request that was sent.
    pub request: Request,
    /// The response that was received.
    pub response: Response,
    /// Whether the connection can carry another exchange.
    pub keep_alive: bool,
}

/// The number of headers that a response may have.
pub const MAX_HEADERS: usize = 64;

enum State {
    Serialize,
    Send(WriteStream),
    ReceiveHeaders { read: ReadStream, headers: Vec<u8> },
    ReceiveChunkedBody { chunks: ReadStreamChunks, response: Response },
    ReceiveLengthedBody { exact: ReadStreamExact, length: usize, response: Response },
    ReceiveBody { rest: ReadStreamToEnd, response: Response },
}

/// The machine that sends one request and receives its response.
pub struct SendHttp {
    request: Request,
    state: State,
    keep_alive: bool,
}

/// What is known of a response before its body: version, status and headers.
pub struct Preface {
    pub version: Version,
    pub status: u16,
    pub fields: Seq<(Seq<u8>, Seq<u8>)>,
}

/// Where the machine stands.
pub enum Phase {
    /// Before anything was sent.
    Serialize,
    /// Sending: these bytes are still to be handed to the driver.
    Send(Seq<u8>),
    /// Receiving the head: these bytes were received so far.
    ReceiveHeaders(Seq<u8>),
    /// Receiving a chunked body: the decoder, and whether the connection stays
    /// open.
    ReceiveChunkedBody(Machine, Preface, bool),
    /// Receiving a body of a given length: what was received of it so far, and
    /// the length.
    ReceiveLengthedBody(Seq<u8>, nat, Preface, bool),
    /// Receiving a body up to the end of the stream: what was received so far.
    ReceiveBody(Seq<u8>, Preface, bool),
}

/// `r` is the complete exchange of `request` with this response.
pub open spec fn finished(
    r: SendHttpResult,
    request: Request,
    preface: Preface,
    keep_alive: bool,
    body: Seq<u8>,
) -> bool {
    &&& r matches SendHttpResult::Done(ok)
    &&& ok.request == request
    &&& ok.response.version == preface.version
    &&& ok.response.status == preface.status
    &&& fields(ok.response.headers@) == preface.fields
    &&& ok.response.body@ == body
    &&& ok.keep_alive == keep_alive
}

/// `r` asks for a read, and the machine stands at `phase`.
pub open spec fn waits(r: SendHttpResult, after: Phase, phase: Phase) -> bool {
    r matches SendHttpResult::Io(StreamIo::Read(Err(_))) && after == phase
}

/// The first `n` of the bytes, or all of them where they are fewer.
pub open spec fn first_bytes(bytes: Seq<u8>, n: nat) -> Seq<u8> {
    if bytes.len() <= n {
        bytes
    } else {
        bytes.subrange(0, n as int)
    }
}

/// Cuts a byte string to its first `n` bytes.
pub fn cut(bytes: Vec<u8>, n: usize) -> (r: Vec<u8>)
    ensures
        r@ == first_bytes(bytes@, n as nat),
{
    let mut bytes = bytes;
    if bytes.len() > n {
        bytes.truncate(n);
    }
    bytes
}

/// A call of `resume` while the body is received.
///
/// A chunked body is complete where its decoder says so. A body of a given
/// length is complete once that many bytes were received: the body is the
/// first that many of them, whatever the driver brought beyond. A body up to
/// the end of the stream is complete at a read of no byte, which for the other
/// two is an error.
pub open spec fn body_resumed(
    before: Phase,
    request: Request,
    arg: Option<StreamIo>,
    r: SendHttpResult,
    after: Phase,
) -> bool {
    match before {
        Phase::ReceiveChunkedBody(m, preface, keep) => exists|
            inner: ReadStreamChunksResult,
            m2: Machine,
        |
            #![auto]
            chunks_resumed(m, arg, inner, m2) && match inner {
                ReadStreamChunksResult::Done(body) => finished(r, request, preface, keep, body@),
                ReadStreamChunksResult::Failed(err) => r == SendHttpResult::Failed(
                    SendHttpError::ReadStreamChunks(err),
                ),
                ReadStreamChunksResult::Io(io) => r == SendHttpResult::Io(io) && after
                    == Phase::ReceiveChunkedBody(m2, preface, keep),
            },
        Phase::ReceiveLengthedBody(held, goal, preface, keep) => if held.len() >= goal {
            finished(r, request, preface, keep, first_bytes(held, goal))
        } else {
            let now = held_after(held, arg);
            match arg {
                None => waits(r, after, before),
                Some(StreamIo::Read(Err(buffer))) => r == SendHttpResult::Io(
                    StreamIo::Read(Err(buffer)),
                ) && after == before,
                Some(StreamIo::Read(Ok(out))) => if out.bytes_count == 0 {
                    r matches SendHttpResult::Failed(
                        SendHttpError::ReadStreamExact(
                            ReadStreamExactError::UnexpectedEof(_, _, _),
                        ),
                    )
                } else if now.len() >= goal {
                    finished(r, request, preface, keep, first_bytes(now, goal))
                } else {
                    waits(r, after, Phase::ReceiveLengthedBody(now, goal, preface, keep))
                },
                Some(StreamIo::Write(_)) => r matches SendHttpResult::Failed(
                    SendHttpError::ReadStreamExact(ReadStreamExactError::Read(_)),
                ),
            }
        },
        Phase::ReceiveBody(held, preface, keep) => match arg {
            None => waits(r, after, before),
            Some(StreamIo::Read(Err(buffer))) => r == SendHttpResult::Io(
                StreamIo::Read(Err(buffer)),
            ) && after == before,
            Some(StreamIo::Read(Ok(out))) => if out.bytes_count == 0 {
                finished(r, request, preface, keep, held)
            } else {
                waits(r, after, Phase::ReceiveBody(held + output_bytes(out), preface, keep))
            },
            Some(StreamIo::Write(_)) => r matches SendHttpResult::Failed(
                SendHttpError::ReadStreamToEnd(_),
            ),
        },
        _ => false,
    }
}

/// Where the machine stands once it has the head of the response, with the
/// bytes that were received behind it.
pub open spec fn entered(head: HeadView, leftover: Seq<u8>) -> Phase {
    let decided = plan_of(head);
    let preface = Preface {
        version: decided.version,
        status: decided.status,
        fields: head.fields,
    };
    let keep = decided.keep_alive;
    match decided.framing {
        Framing::Chunked => Phase::ReceiveChunkedBody(
            Machine::start().fed(leftover),
            preface,
            keep,
        ),
        Framing::Lengthed(n) => Phase::ReceiveLengthedBody(
            first_bytes(leftover, n as nat),
            n as nat,
            preface,
            keep,
        ),
        Framing::ToEnd => Phase::ReceiveBody(leftover, preface, keep),
    }
}

/// A call of `resume` while the head is received, with `received` so far.
///
/// A completed read is put behind what was received, and all of it is parsed
/// again. Once the head is complete the machine goes on to the body at once,
/// with what follows the head.
pub open spec fn head_resumed(
    received: Seq<u8>,
    request: Request,
    arg: Option<StreamIo>,
    r: SendHttpResult,
    after: Phase,
) -> bool {
    match arg {
        None => waits(r, after, Phase::ReceiveHeaders(received)),
        Some(StreamIo::Read(Err(buffer))) => r == SendHttpResult::Io(StreamIo::Read(Err(buffer)))
            && after == Phase::ReceiveHeaders(received),
        Some(StreamIo::Read(Ok(out))) => if out.bytes_count == 0 {
            r matches SendHttpResult::Failed(SendHttpError::UnexpectedEof)
        } else {
            let all = received + output_bytes(out);
            match parsed_head(all, MAX_HEADERS as nat) {
                HeadParse::Partial => waits(r, after, Phase::ReceiveHeaders(all)),
                HeadParse::Invalid(err) => r == SendHttpResult::Failed(
                    SendHttpError::ParseResponseHeaders(err),
                ),
                HeadParse::Complete(n, head) => body_resumed(
                    entered(head, all.subrange(n as int, all.len() as int)),
                    request,
                    None,
                    r,
                    after,
                ),
            }
        },
        Some(StreamIo::Write(_)) => r matches SendHttpResult::Failed(SendHttpError::ReadStream(_)),
    }
}

/// A call of `resume` while the request is sent, with `pending` still to be
/// handed to the driver.
///
/// The machine hands out all the bytes in one write. Once the driver reports
/// that it wrote, the machine asks for the first read of the response.
pub open spec fn send_resumed(
    pending: Seq<u8>,
    request: Request,
    arg: Option<StreamIo>,
    r: SendHttpResult,
    after: Phase,
) -> bool {
    match arg {
        None => (r matches SendHttpResult::Io(StreamIo::Write(Err(bytes))) && bytes@ == pending)
            && after == Phase::Send(Seq::empty()),
        Some(StreamIo::Write(Err(bytes))) => r == SendHttpResult::Io(StreamIo::Write(Err(bytes)))
            && after == Phase::Send(pending),
        Some(StreamIo::Write(Ok(out))) => if out.bytes_count == 0 {
            r matches SendHttpResult::Failed(SendHttpError::UnexpectedEof)
        } else {
            head_resumed(Seq::empty(), request, None, r, after)
        },
        Some(StreamIo::Read(_)) => r matches SendHttpResult::Failed(SendHttpError::WriteStream(_)),
    }
}

/// What a call of `resume` returns and where it leaves the machine, for a
/// machine that stood at `before` and a driver that answered `arg`.
pub open spec fn resumed(
    before: Phase,
    request: Request,
    arg: Option<StreamIo>,
    r: SendHttpResult,
    after: Phase,
) -> bool {
    match before {
        Phase::Serialize => send_resumed(wire(request), request, arg, r, after),
        Phase::Send(pending) => send_resumed(pending, request, arg, r, after),
        Phase::ReceiveHeaders(received) => head_resumed(received, request, arg, r, after),
        _ => body_resumed(before, request, arg, r, after),
    }
}

impl Response {
    /// What is known of the response before its body.
    pub open spec fn preface(&self) -> Preface {
        Preface { version: self.version, status: self.status, fields: fields(self.headers@) }
    }
}

impl State {
    spec fn phase(&self, keep: bool) -> Phase {
        match *self {
            State::Serialize => Phase::Serialize,
            State::Send(write) => Phase::Send(write_pending(write)),
            State::ReceiveHeaders { read, headers } => Phase::ReceiveHeaders(headers@),
            State::ReceiveChunkedBody { chunks, response } => Phase::ReceiveChunkedBody(
                chunks@,
                response.preface(),
                keep,
            ),
            State::ReceiveLengthedBody { exact, length, response } => Phase::ReceiveLengthedBody(
                exact_held(exact),
                exact_goal(exact),
                response.preface(),
                keep,
            ),
            State::ReceiveBody { rest, response } => Phase::ReceiveBody(
                to_end_held(rest),
                response.preface(),
                keep,
            ),
        }
    }

    spec fn wf(&self) -> bool {
        match *self {
            State::ReceiveChunkedBody { chunks, response } => chunks.wf(),
            State::ReceiveLengthedBody { exact, length, response } => exact_goal(exact) == length,
            _ => true,
        }
    }

    spec fn rank(&self) -> nat {
        match *self {
            State::Serialize => 3,
            State::Send(_) => 2,
            State::ReceiveHeaders { .. } => 1,
            _ => 0,
        }
    }
}

/// The request that stays in a machine whose exchange is complete: nothing in
/// any of its parts.
fn blank_request() -> (request: Request)
    ensures
        request.method@ == Seq::<u8>::empty(),
        request.uri@ == (UriView { scheme: None, authority: None, path_and_query: None }),
        request.version == Version::Http11,
        request.headers@ == Seq::<Header>::empty(),
        request.body@ == Seq::<u8>::empty(),
{
    Request {
        method: Vec::new(),
        uri: Uri { scheme: None, authority: None, path_and_query: None },
        version: Version::Http11,
        headers: Vec::new(),
        body: Vec::new(),
    }
}

impl SendHttp {
    /// Where the machine stands.
    pub closed spec fn view(&self) -> Phase {
        self.state.phase(self.keep_alive)
    }

    /// The request that the machine sends.
    pub closed spec fn request(&self) -> Request {
        self.request
    }

    /// The machines inside are well formed.
    pub closed spec fn wf(&self) -> bool {
        self.state.wf()
    }

    /// A machine that sends the given request and receives its response.
    pub fn new(request: Request) -> (machine: Self)
        ensures
            machine@ == Phase::Serialize,
            machine.request() == request,
            machine.wf(),
    {
        SendHttp { request, state: State::Serialize, keep_alive: true }
    }

    /// Gives up the machine for its request, which it holds until the exchange
    /// is complete.
    pub fn into_request(self) -> (request: Request)
        ensures
            request == self.request(),
    {
        self.request
    }

    /// Ends the exchange: the request leaves the machine with the response.
    fn finish(&mut self, response: Response, body: Vec<u8>) -> (r: SendHttpResult)
        ensures
            finished(
                r,
                old(self).request,
                response.preface(),
                old(self).keep_alive,
                body@,
            ),
            final(self).wf(),
    {
        let mut request = blank_request();
        std::mem::swap(&mut request, &mut self.request);
        self.state = State::Serialize;
        let response = Response {
            version: response.version,
            status: response.status,
            headers: response.headers,
            body,
        };
        SendHttpResult::Done(SendHttpOk { request, response, keep_alive: self.keep_alive })
    }

    /// Makes the machine progress.
    pub fn resume(&mut self, arg: Option<StreamIo>) -> (r: SendHttpResult)
        requires
            old(self).wf(),
            accurate(arg),
        ensures
            final(self).wf(),
            resumed(old(self)@, old(self).request(), arg, r, final(self)@),
            !(r is Done) ==> final(self).request() == old(self).request(),
    {
        let mut pending = arg;
        let mut state = State::Serialize;
        std::mem::swap(&mut state, &mut self.state);
        loop
            invariant
                state.wf(),
                accurate(pending),
                self.request == old(self).request,
                forall|r: SendHttpResult, after: Phase| #[trigger]
                    resumed(state.phase(self.keep_alive), self.request, pending, r, after)
                        ==> resumed(old(self)@, old(self).request, arg, r, after),
            decreases
                    state.rank(),
                    (if pending is Some {
                        1nat
                    } else {
                        0nat
                    }),
        {
            let ghost here = state.phase(self.keep_alive);
            let ghost given = pending;
            let ghost request = self.request;
            match state {
                State::Serialize => {
                    let bytes = serialize(&self.request);
                    state = State::Send(WriteStream::new(bytes));
                },
                State::Send(mut write) => {
                    match write.resume(pending.take()) {
                        WriteStreamResult::Ok(_) => {
                            state = State::ReceiveHeaders {
                                read: ReadStream::new(),
                                headers: Vec::new(),
                            };
                        },
                        WriteStreamResult::Err(err) => {
                            self.state = State::Send(write);
                            let r = SendHttpResult::Failed(SendHttpError::WriteStream(err));
                            assert(resumed(here, request, given, r, self@));
                            return r;
                        },
                        WriteStreamResult::Io(io) => {
                            self.state = State::Send(write);
                            let r = SendHttpResult::Io(io);
                            assert(resumed(here, request, given, r, self@));
                            return r;
                        },
                        WriteStreamResult::Eof => {
                            self.state = State::Send(write);
                            let r = SendHttpResult::Failed(SendHttpError::UnexpectedEof);
                            assert(resumed(here, request, given, r, self@));
                            return r;
                        },
                    }
                },
                State::ReceiveHeaders { mut read, mut headers } => {
                    let output = match read.resume(pending.take()) {
                        ReadStreamResult::Ok(output) => output,
                        ReadStreamResult::Err(err) => {
                            self.state = State::ReceiveHeaders { read, headers };
                            let r = SendHttpResult::Failed(SendHttpError::ReadStream(err));
                            assert(resumed(here, request, given, r, self@));
                            return r;
                        },
                        ReadStreamResult::Io(io) => {
                            self.state = State::ReceiveHeaders { read, headers };
                            let r = SendHttpResult::Io(io);
                            assert(resumed(here, request, given, r, self@));
                            return r;
                        },
                        ReadStreamResult::Eof => {
                            self.state = State::ReceiveHeaders { read, headers };
                            let r = SendHttpResult::Failed(SendHttpError::UnexpectedEof);
                            assert(resumed(here, request, given, r, self@));
                            return r;
                        },
                    };
                    let bytes = reported_bytes(&output);
                    let ghost received = headers@;
                    headers.extend_from_slice(bytes.as_slice());
                    assert(headers@ =~= received + output_bytes(output));
                    match parse_head(headers.as_slice(), MAX_HEADERS) {
                        HeadStatus::Partial => {
                            read.replace(output.buffer);
                            state = State::ReceiveHeaders { read, headers };
                        },
                        HeadStatus::Invalid(err) => {
                            self.state = State::ReceiveHeaders { read, headers };
                            let r = SendHttpResult::Failed(
                                SendHttpError::ParseResponseHeaders(err),
                            );
                            assert(resumed(here, request, given, r, self@));
                            return r;
                        },
                        HeadStatus::Complete(n, head) => {
                            let ghost all = headers@;
                            let leftover = headers.split_off(n);
                            let decided = plan(&head);
                            self.keep_alive = decided.keep_alive;
                            let response = Response {
                                version: decided.version,
                                status: decided.status,
                                headers: head.headers,
                                body: Vec::new(),
                            };
                            match decided.framing {
                                Framing::Chunked => {
                                    read.replace(output.buffer);
                                    let mut chunks = ReadStreamChunks::new(read);
                                    chunks.extend(leftover);
                                    proof {
                                        lemma_seed_without_input(Machine::start(), leftover@);
                                    }
                                    state = State::ReceiveChunkedBody { chunks, response };
                                },
                                Framing::Lengthed(length) => {
                                    let mut exact = ReadStreamExact::new(length);
                                    exact_extend(&mut exact, cut(leftover, length));
                                    state = State::ReceiveLengthedBody { exact, length, response };
                                },
                                Framing::ToEnd => {
                                    let mut rest = ReadStreamToEnd::new();
                                    to_end_extend(&mut rest, leftover);
                                    state = State::ReceiveBody { rest, response };
                                },
                            }
                            assert(state.phase(self.keep_alive) == entered(
                                head@,
                                all.subrange(n as int, all.len() as int),
                            ));
                        },
                    }
                },
                State::ReceiveChunkedBody { mut chunks, response } => {
                    let ghost before = chunks@;
                    let inner = chunks.resume(pending.take());
                    let ghost witness = inner;
                    match inner {
                        ReadStreamChunksResult::Done(body) => {
                            let r = self.finish(response, body);
                            assert(chunks_resumed(before, given, witness, chunks@));
                            assert(resumed(here, request, given, r, self@));
                            return r;
                        },
                        ReadStreamChunksResult::Failed(err) => {
                            self.state = State::ReceiveChunkedBody { chunks, response };
                            let r = SendHttpResult::Failed(SendHttpError::ReadStreamChunks(err));
                            assert(chunks_resumed(before, given, witness, chunks@));
                            assert(resumed(here, request, given, r, self@));
                            return r;
                        },
                        ReadStreamChunksResult::Io(io) => {
                            self.state = State::ReceiveChunkedBody { chunks, response };
                            let r = SendHttpResult::Io(io);
                            assert(chunks_resumed(before, given, witness, chunks@));
                            assert(resumed(here, request, given, r, self@));
                            return r;
                        },
                    }
                },
                State::ReceiveLengthedBody { mut exact, length, response } => {
                    match exact.resume(pending.take()) {
                        ReadStreamExactResult::Ok(body) => {
                            let r = self.finish(response, cut(body, length));
                            assert(resumed(here, request, given, r, self@));
                            return r;
                        },
                        ReadStreamExactResult::Err(err) => {
                            self.state = State::ReceiveLengthedBody { exact, length, response };
                            let r = SendHttpResult::Failed(SendHttpError::ReadStreamExact(err));
                            assert(resumed(here, request, given, r, self@));
                            return r;
                        },
                        ReadStreamExactResult::Io(io) => {
                            self.state = State::ReceiveLengthedBody { exact, length, response };
                            let r = SendHttpResult::Io(io);
                            assert(resumed(here, request, given, r, self@));
                            return r;
                        },
                    }
                },
                State::ReceiveBody { mut rest, response } => {
                    match rest.resume(pending.take()) {
                        ReadStreamToEndResult::Ok(body) => {
                            let r = self.finish(response, body);
                            assert(resumed(here, request, given, r, self@));
                            return r;
                        },
                        ReadStreamToEndResult::Err(err) => {
                            self.state = State::ReceiveBody { rest, response };
                            let r = SendHttpResult::Failed(SendHttpError::ReadStreamToEnd(err));
                            assert(resumed(here, request, given, r, self@));
                            return r;
                        },
                        ReadStreamToEndResult::Io(io) => {
                            self.state = State::ReceiveBody { rest, response };
                            let r = SendHttpResult::Io(io);
                            assert(resumed(here, request, given, r, self@));
                            return r;
                        },
                    }
                },
            }
            // The machine went on without a result: what it now comes to is what
            // it came to where this turn began.
            assert forall|r: SendHttpResult, after: Phase| #[trigger]
                resumed(
                    state.phase(self.keep_alive),
                    request,
                    pending,
                    r,
                    after,
                ) implies resumed(here, request, given, r, after) by {}
        }
    }
}

/// The bytes that follow a head of `n` bytes in `all`.
pub open spec fn behind_head(all: Seq<u8>, n: nat) -> Seq<u8> {
    all.subrange(n as int, all.len() as int)
}

/// The body of a chunked response is what the decoder makes of the bytes behind
/// the head. Where the read that completes the head completes the exchange,
/// the decoder finishes on those bytes, with the body of the response.
pub proof fn lemma_chunked_response_is_decoded(
    received: Seq<u8>,
    request: Request,
    out: io_stream::io::StreamOutput,
    r: SendHttpResult,
    after: Phase,
)
    requires
        out.bytes_count > 0,
        head_resumed(received, request, Some(StreamIo::Read(Ok(out))), r, after),
        parsed_head(received + output_bytes(out), MAX_HEADERS as nat) matches HeadParse::Complete(
            n,
            head,
        ) && framing_of(head.fields) == Framing::Chunked,
    ensures
        parsed_head(received + output_bytes(out), MAX_HEADERS as nat) matches HeadParse::Complete(
            n,
            head,
        ) && match run(Machine::start().fed(behind_head(received + output_bytes(out), n))) {
            Outcome::Finished(body) => r matches SendHttpResult::Done(ok) && ok.response.body@
                == body,
            Outcome::BadSize(_) => r is Failed,
            Outcome::Starved(m) => r is Io && after is ReceiveChunkedBody && after
                ->ReceiveChunkedBody_0 == m,
        },
{
}

/// While a chunked body is received, the exchange is complete exactly where
/// the decoder finishes, on what it holds or on that and the bytes just read,
/// and the body of the response is the decoder's.
pub proof fn lemma_chunked_body_is_decoded(
    m: Machine,
    preface: Preface,
    keep: bool,
    request: Request,
    arg: Option<StreamIo>,
    r: SendHttpResult,
    after: Phase,
)
    requires
        body_resumed(Phase::ReceiveChunkedBody(m, preface, keep), request, arg, r, after),
    ensures
        r matches SendHttpResult::Done(ok) ==> ok.keep_alive == keep && (run(m)
            == Outcome::Finished(ok.response.body@) || (run(m) matches Outcome::Starved(fed)
            && arg matches Some(StreamIo::Read(Ok(out))) && run(fed.fed(output_bytes(out)))
            == Outcome::Finished(ok.response.body@))),
        run(m) is Finished ==> r is Done,
{
}

/// The body of a response with a `Content-Length` has exactly that length: it
/// is the first that many of the bytes received behind the head, up to and
/// with the read that brought the last of them.
pub proof fn lemma_lengthed_body_has_its_length(
    held: Seq<u8>,
    goal: nat,
    preface: Preface,
    keep: bool,
    request: Request,
    arg: Option<StreamIo>,
    r: SendHttpResult,
    after: Phase,
)
    requires
        body_resumed(Phase::ReceiveLengthedBody(held, goal, preface, keep), request, arg, r, after),
        r is Done,
    ensures
        r->Done_0.response.body@.len() == goal,
        r->Done_0.response.body@ == first_bytes(held, goal) || r->Done_0.response.body@
            == first_bytes(held_after(held, arg), goal),
{
}

/// A response whose `Content-Length` is reached by the bytes behind the head is
/// complete with the read that completes the head: the machine asks for no
/// further read, and the body is the first bytes behind the head, as many as
/// announced. With a length of zero the body is empty.
pub proof fn lemma_short_body_needs_no_read(
    received: Seq<u8>,
    request: Request,
    out: io_stream::io::StreamOutput,
    r: SendHttpResult,
    after: Phase,
)
    requires
        out.bytes_count > 0,
        head_resumed(received, request, Some(StreamIo::Read(Ok(out))), r, after),
        parsed_head(received + output_bytes(out), MAX_HEADERS as nat) matches HeadParse::Complete(
            n,
            head,
        ) && (framing_of(head.fields) matches Framing::Lengthed(length) && behind_head(
            received + output_bytes(out),
            n,
        ).len() >= length),
    ensures
        parsed_head(received + output_bytes(out), MAX_HEADERS as nat) matches HeadParse::Complete(
            n,
            head,
        ) && (framing_of(head.fields) matches Framing::Lengthed(length) && (r matches
            SendHttpResult::Done(ok) && ok.response.body@ == behind_head(
            received + output_bytes(out),
            n,
        ).subrange(0, length as int) && ok.response.body@.len() == length && ok.keep_alive
            == plan_of(head).keep_alive)),
{
}

/// A machine that stands at `before` is resumed once for each piece, with a
/// completed read that brings the piece; each call but the last asks for the
/// next read, and `last` is what the last call returns.
pub open spec fn answered(
    before: Phase,
    request: Request,
    pieces: Seq<Seq<u8>>,
    last: SendHttpResult,
) -> bool
    decreases pieces.len(),
{
    pieces.len() > 0 && exists|out: io_stream::io::StreamOutput, r: SendHttpResult, after: Phase|
        #![auto]
        out.bytes_count > 0 && out.bytes_count <= out.buffer@.len() && output_bytes(out)
            == pieces[0] && resumed(before, request, Some(StreamIo::Read(Ok(out))), r, after)
            && if pieces.len() == 1 {
            r == last
        } else {
            r is Io && answered(after, request, pieces.drop_first(), last)
        }
}

/// The body of a response with a `Content-Length`, over a whole run: a machine
/// that waits for the rest of such a body, and is brought as many bytes as are
/// missing, or more, in reads of which none is empty, ends with a body of
/// exactly the announced length: the first bytes received behind the head.
pub proof fn lemma_lengthed_body_over_a_run(
    held: Seq<u8>,
    goal: nat,
    preface: Preface,
    keep: bool,
    request: Request,
    pieces: Seq<Seq<u8>>,
    last: SendHttpResult,
)
    requires
        held.len() < goal,
        none_empty(pieces),
        held.len() + join(pieces).len() >= goal,
        answered(
            Phase::ReceiveLengthedBody(held, goal, preface, keep),
            request,
            pieces,
            last,
        ),
    ensures
        finished(last, request, preface, keep, (held + join(pieces)).subrange(0, goal as int)),
    decreases pieces.len(),
{
    let before = Phase::ReceiveLengthedBody(held, goal, preface, keep);
    let (out, r, after) = choose|out: io_stream::io::StreamOutput, r: SendHttpResult, after: Phase|
        #![auto]
        out.bytes_count > 0 && out.bytes_count <= out.buffer@.len() && output_bytes(out)
            == pieces[0] && resumed(before, request, Some(StreamIo::Read(Ok(out))), r, after)
            && if pieces.len() == 1 {
            r == last
        } else {
            r is Io && answered(after, request, pieces.drop_first(), last)
        };
    let piece = pieces[0];
    let later = pieces.drop_first();
    let now = held + piece;
    assert(join(pieces) == piece + join(later));
    if pieces.len() == 1 {
        assert(join(later) =~= Seq::<u8>::empty());
        assert(held + join(pieces) =~= now);
        assert(first_bytes(now, goal) =~= now.subrange(0, goal as int));
    } else {
        assert(none_empty(later)) by {
            assert forall|i: int| 0 <= i < later.len() implies (#[trigger] later[i]).len()
                > 0 by {
                assert(later[i] == pieces[i + 1]);
            }
        }
        assert(now + join(later) =~= held + join(pieces));
        lemma_lengthed_body_over_a_run(now, goal, preface, keep, request, later, last);
    }
}

/// The body of a chunked response, over a whole run: a machine whose decoder
/// has read the start of a body on the wire and waits for more, and is brought
/// the rest in reads of which none is empty, ends with the body that the
/// chunks hold.
pub proof fn lemma_chunked_body_over_a_run(
    chunks: Seq<Chunk>,
    last_extension: Seq<u8>,
    m: Machine,
    read: Seq<u8>,
    preface: Preface,
    keep: bool,
    request: Request,
    pieces: Seq<Seq<u8>>,
    last: SendHttpResult,
)
    requires
        encodable(chunks),
        is_extension(last_extension),
        has_read(m, read),
        run(m) == Outcome::Starved(m),
        none_empty(pieces),
        read + join(pieces) == encode(chunks, last_extension),
        answered(Phase::ReceiveChunkedBody(m, preface, keep), request, pieces, last),
    ensures
        finished(last, request, preface, keep, concat(chunks)),
    decreases pieces.len(),
{
    let before = Phase::ReceiveChunkedBody(m, preface, keep);
    let (out, r, after) = choose|out: io_stream::io::StreamOutput, r: SendHttpResult, after: Phase|
        #![auto]
        out.bytes_count > 0 && out.bytes_count <= out.buffer@.len() && output_bytes(out)
            == pieces[0] && resumed(before, request, Some(StreamIo::Read(Ok(out))), r, after)
            && if pieces.len() == 1 {
            r == last
        } else {
            r is Io && answered(after, request, pieces.drop_first(), last)
        };
    let arg = Some(StreamIo::Read(Ok(out)));
    let (inner, m2) = choose|inner: ReadStreamChunksResult, m2: Machine|
        #![auto]
        chunks_resumed(m, arg, inner, m2) && match inner {
            ReadStreamChunksResult::Done(body) => finished(r, request, preface, keep, body@),
            ReadStreamChunksResult::Failed(err) => r == SendHttpResult::Failed(
                SendHttpError::ReadStreamChunks(err),
            ),
            ReadStreamChunksResult::Io(io) => r == SendHttpResult::Io(io) && after
                == Phase::ReceiveChunkedBody(m2, preface, keep),
        };
    let piece = pieces[0];
    let later = pieces.drop_first();
    assert(run(m.fed(piece)) == run(Machine::start().fed(read + piece)));
    assert(join(pieces) == piece + join(later));
    if pieces.len() == 1 {
        assert(join(later) =~= Seq::<u8>::empty());
        assert(read + piece =~= read + join(pieces));
        lemma_round_trip(chunks, last_extension);
    } else {
        assert(none_empty(later)) by {
            assert forall|i: int| 0 <= i < later.len() implies (#[trigger] later[i]).len()
                > 0 by {
                assert(later[i] == pieces[i + 1]);
            }
        }
        assert(join(later).len() > 0) by {
            assert(later[0].len() > 0);
        }
        assert((read + piece) + join(later) =~= read + join(pieces));
        lemma_start_of_body_starves(chunks, last_extension, read + piece, join(later));
        lemma_settle(m.fed(piece));
        lemma_settle(settle(m.fed(piece)));
        assert(m2 == settle(m.fed(piece)));
        assert(settle(m2) == m2);
        assert forall|more: Seq<u8>| #[trigger]
            run(m2.fed(more)) == run(Machine::start().fed(read + piece + more)) by {
            lemma_feed_after_starving(m.fed(piece), more);
            assert(m.fed(piece).fed(more) == m.fed(piece + more)) by {
                assert(m.fed(piece).fed(more).buffer =~= m.fed(piece + more).buffer);
            }
            assert(run(m.fed(piece + more)) == run(Machine::start().fed(read + (piece + more))));
            assert(read + (piece + more) =~= read + piece + more);
        }
        lemma_chunked_body_over_a_run(
            chunks,
            last_extension,
            m2,
            read + piece,
            preface,
            keep,
            request,
            later,
            last,
        );
    }
}

/// A response with a `Content-Length`, from the read that completes its head
/// to the end: where fewer bytes than announced stand behind the head, the
/// machine asks for more, and, brought enough in reads of which none is empty,
/// ends with the first bytes received behind the head, as many as announced.
pub proof fn lemma_lengthed_response_over_a_run(
    received: Seq<u8>,
    request: Request,
    out: io_stream::io::StreamOutput,
    r: SendHttpResult,
    after: Phase,
    pieces: Seq<Seq<u8>>,
    last: SendHttpResult,
)
    requires
        out.bytes_count > 0,
        head_resumed(received, request, Some(StreamIo::Read(Ok(out))), r, after),
        parsed_head(received + output_bytes(out), MAX_HEADERS as nat) matches HeadParse::Complete(
            n,
            head,
        ) && (framing_of(head.fields) matches Framing::Lengthed(length) && behind_head(
            received + output_bytes(out),
            n,
        ).len() < length && behind_head(received + output_bytes(out), n).len() + join(
            pieces,
        ).len() >= length),
        none_empty(pieces),
        answered(after, request, pieces, last),
    ensures
        r is Io,
        parsed_head(received + output_bytes(out), MAX_HEADERS as nat) matches HeadParse::Complete(
            n,
            head,
        ) && (framing_of(head.fields) matches Framing::Lengthed(length) && (last matches
            SendHttpResult::Done(ok) && ok.response.body@ == (behind_head(
            received + output_bytes(out),
            n,
        ) + join(pieces)).subrange(0, length as int) && ok.response.body@.len() == length
            && ok.keep_alive == plan_of(head).keep_alive)),
{
    let all = received + output_bytes(out);
    let parsed = parsed_head(all, MAX_HEADERS as nat);
    let n = parsed->Complete_0;
    let head = parsed->Complete_1;
    let length = framing_of(head.fields)->Lengthed_0;
    let leftover = behind_head(all, n);
    let decided = plan_of(head);
    let preface = Preface {
        version: decided.version,
        status: decided.status,
        fields: head.fields,
    };
    assert(after == Phase::ReceiveLengthedBody(
        leftover,
        length as nat,
        preface,
        decided.keep_alive,
    ));
    lemma_lengthed_body_over_a_run(
        leftover,
        length as nat,
        preface,
        decided.keep_alive,
        request,
        pieces,
        last,
    );
}

/// A chunked response, from the read that completes its head to the end: where
/// only the start of a body on the wire stands behind the head, the machine
/// asks for more, and, brought the rest in reads of which none is empty, ends
/// with the body that the chunks hold.
pub proof fn lemma_chunked_response_over_a_run(
    chunks: Seq<Chunk>,
    last_extension: Seq<u8>,
    received: Seq<u8>,
    request: Request,
    out: io_stream::io::StreamOutput,
    r: SendHttpResult,
    after: Phase,
    pieces: Seq<Seq<u8>>,
    last: SendHttpResult,
)
    requires
        encodable(chunks),
        is_extension(last_extension),
        out.bytes_count > 0,
        head_resumed(received, request, Some(StreamIo::Read(Ok(out))), r, after),
        parsed_head(received + output_bytes(out), MAX_HEADERS as nat) matches HeadParse::Complete(
            n,
            head,
        ) && framing_of(head.fields) == Framing::Chunked && behind_head(
            received + output_bytes(out),
            n,
        ) + join(pieces) == encode(chunks, last_extension),
        pieces.len() > 0,
        none_empty(pieces),
        answered(after, request, pieces, last),
    ensures
        r is Io,
        parsed_head(received + output_bytes(out), MAX_HEADERS as nat) matches HeadParse::Complete(
            n,
            head,
        ) && (last matches SendHttpResult::Done(ok) && ok.response.body@ == concat(chunks)
            && ok.keep_alive == plan_of(head).keep_alive),
{
    let all = received + output_bytes(out);
    let parsed = parsed_head(all, MAX_HEADERS as nat);
    let n = parsed->Complete_0;
    let head = parsed->Complete_1;
    let leftover = behind_head(all, n);
    let decided = plan_of(head);
    let preface = Preface {
        version: decided.version,
        status: decided.status,
        fields: head.fields,
    };
    assert(join(pieces).len() > 0) by {
        assert(pieces[0].len() > 0);
        assert(join(pieces) == pieces[0] + join(pieces.drop_first()));
    }
    lemma_start_of_body_starves(chunks, last_extension, leftover, join(pieces));
    lemma_starved_has_read(leftover);
    let m = run(Machine::start().fed(leftover))->Starved_0;
    assert(after == Phase::ReceiveChunkedBody(m, preface, decided.keep_alive));
    lemma_chunked_body_over_a_run(
        chunks,
        last_extension,
        m,
        leftover,
        preface,
        decided.keep_alive,
        request,
        pieces,
        last,
    );
}

/// The bytes are the head of a response, as `httparse` reads them: whatever
/// comes behind them, they parse to `head`, complete, and no shorter start of
/// them is complete or malformed.
pub open spec fn is_head(bytes: Seq<u8>, head: HeadView) -> bool {
    &&& forall|behind: Seq<u8>| #[trigger]
        parsed_head(bytes + behind, MAX_HEADERS as nat) == HeadParse::Complete(bytes.len(), head)
    &&& forall|k: int|
        0 <= k < bytes.len() ==> #[trigger] parsed_head(bytes.subrange(0, k), MAX_HEADERS as nat)
            == HeadParse::Partial
}

/// The call that completed the head in a run: what the machine had received
/// before it, the read that it was resumed with, what it returned, where it
/// then stood, and the pieces that were still to come.
pub struct HeadCompleted {
    pub received: Seq<u8>,
    pub out: io_stream::io::StreamOutput,
    pub r: SendHttpResult,
    pub after: Phase,
    pub later: Seq<Seq<u8>>,
}

/// The head over a whole run: a machine that has received the start of a head,
/// and is brought the rest of the response in reads of which none is empty,
/// asks for reads until one completes the head. From that call on the run is
/// that of the body.
pub proof fn lemma_head_over_a_run(
    head_bytes: Seq<u8>,
    head: HeadView,
    received: Seq<u8>,
    behind: Seq<u8>,
    request: Request,
    pieces: Seq<Seq<u8>>,
    last: SendHttpResult,
) -> (found: HeadCompleted)
    requires
        is_head(head_bytes, head),
        received.len() < head_bytes.len(),
        none_empty(pieces),
        received + join(pieces) == head_bytes + behind,
        answered(Phase::ReceiveHeaders(received), request, pieces, last),
    ensures
        found.out.bytes_count > 0,
        head_resumed(
            found.received,
            request,
            Some(StreamIo::Read(Ok(found.out))),
            found.r,
            found.after,
        ),
        parsed_head(found.received + output_bytes(found.out), MAX_HEADERS as nat)
            == HeadParse::Complete(head_bytes.len(), head),
        behind_head(found.received + output_bytes(found.out), head_bytes.len()) + join(
            found.later,
        ) == behind,
        none_empty(found.later),
        if found.later.len() == 0 {
            found.r == last
        } else {
            found.r is Io && answered(found.after, request, found.later, last)
        },
    decreases pieces.len(),
{
    let before = Phase::ReceiveHeaders(received);
    let (out, r, after) = choose|out: io_stream::io::StreamOutput, r: SendHttpResult, after: Phase|
        #![auto]
        out.bytes_count > 0 && out.bytes_count <= out.buffer@.len() && output_bytes(out)
            == pieces[0] && resumed(before, request, Some(StreamIo::Read(Ok(out))), r, after)
            && if pieces.len() == 1 {
            r == last
        } else {
            r is Io && answered(after, request, pieces.drop_first(), last)
        };
    let piece = pieces[0];
    let later = pieces.drop_first();
    let all = received + piece;
    let whole = head_bytes + behind;
    let size = head_bytes.len() as int;
    assert(join(pieces) == piece + join(later));
    assert(all + join(later) =~= whole);
    assert(none_empty(later)) by {
        assert forall|i: int| 0 <= i < later.len() implies (#[trigger] later[i]).len() > 0 by {
            assert(later[i] == pieces[i + 1]);
        }
    }
    if all.len() < size {
        assert(all =~= head_bytes.subrange(0, all.len() as int)) by {
            assert forall|i: int| 0 <= i < all.len() implies all[i] == head_bytes[i] by {
                assert(all[i] == (all + join(later))[i]);
                assert(whole[i] == head_bytes[i]);
            }
        }
        assert(parsed_head(all, MAX_HEADERS as nat) == HeadParse::Partial);
        if pieces.len() == 1 {
            assert(join(later) =~= Seq::<u8>::empty());
            assert(all.len() == whole.len());
        }
        lemma_head_over_a_run(head_bytes, head, all, behind, request, later, last)
    } else {
        let more = all.subrange(size, all.len() as int);
        assert(all =~= head_bytes + more) by {
            assert forall|i: int| 0 <= i < size implies all[i] == head_bytes[i] by {
                assert(all[i] == (all + join(later))[i]);
                assert(whole[i] == head_bytes[i]);
            }
        }
        assert(parsed_head(head_bytes + more, MAX_HEADERS as nat) == HeadParse::Complete(
            head_bytes.len(),
            head,
        ));
        assert(more + join(later) =~= behind) by {
            assert((head_bytes + more) + join(later) =~= head_bytes + (more + join(later)));
            assert forall|i: int| 0 <= i < behind.len() implies (more + join(later))[i]
                == behind[i] by {
                assert((head_bytes + (more + join(later)))[size + i] == whole[size + i]);
            }
            assert((head_bytes + (more + join(later))).len() == whole.len());
        }
        HeadCompleted { received, out, r, after, later }
    }
}

/// A response with a `Content-Length` over a whole run, in any reads: a
/// machine that waits for the response, and is brought its head and as many
/// bytes behind it as announced, or more, in reads of which none is empty, ends
/// with a body of exactly the announced length: the first bytes behind the
/// head.
pub proof fn lemma_lengthed_exchange_over_a_run(
    head_bytes: Seq<u8>,
    head: HeadView,
    behind: Seq<u8>,
    request: Request,
    pieces: Seq<Seq<u8>>,
    last: SendHttpResult,
)
    requires
        is_head(head_bytes, head),
        head_bytes.len() > 0,
        framing_of(head.fields) matches Framing::Lengthed(length) && behind.len() >= length,
        none_empty(pieces),
        join(pieces) == head_bytes + behind,
        answered(Phase::ReceiveHeaders(Seq::empty()), request, pieces, last),
    ensures
        framing_of(head.fields) matches Framing::Lengthed(length) && (last matches
            SendHttpResult::Done(ok) && ok.response.body@ == behind.subrange(0, length as int)
            && ok.response.body@.len() == length && ok.keep_alive == plan_of(head).keep_alive),
{
    let nothing = Seq::<u8>::empty();
    assert(nothing + join(pieces) =~= join(pieces));
    let found = lemma_head_over_a_run(head_bytes, head, nothing, behind, request, pieces, last);
    let length = framing_of(head.fields)->Lengthed_0;
    let more = behind_head(found.received + output_bytes(found.out), head_bytes.len());
    if more.len() >= length {
        lemma_short_body_needs_no_read(found.received, request, found.out, found.r, found.after);
        assert(more =~= behind) by {
            if found.later.len() > 0 {
                assert(false);
            }
            assert(join(found.later) =~= nothing);
        }
    } else {
        if found.later.len() == 0 {
            assert(join(found.later) =~= nothing);
            assert(more =~= behind);
        }
        lemma_lengthed_response_over_a_run(
            found.received,
            request,
            found.out,
            found.r,
            found.after,
            found.later,
            last,
        );
    }
}

/// A chunked response over a whole run, in any reads: a machine that waits for
/// the response, and is brought its head and a body on the wire in reads of
/// which none is empty, ends with the body that the chunks hold.
pub proof fn lemma_chunked_exchange_over_a_run(
    chunks: Seq<Chunk>,
    last_extension: Seq<u8>,
    head_bytes: Seq<u8>,
    head: HeadView,
    request: Request,
    pieces: Seq<Seq<u8>>,
    last: SendHttpResult,
)
    requires
        encodable(chunks),
        is_extension(last_extension),
        is_head(head_bytes, head),
        head_bytes.len() > 0,
        framing_of(head.fields) == Framing::Chunked,
        none_empty(pieces),
        join(pieces) == head_bytes + encode(chunks, last_extension),
        answered(Phase::ReceiveHeaders(Seq::empty()), request, pieces, last),
    ensures
        last matches SendHttpResult::Done(ok) && ok.response.body@ == concat(chunks)
            && ok.keep_alive == plan_of(head).keep_alive,
{
    let nothing = Seq::<u8>::empty();
    let behind = encode(chunks, last_extension);
    assert(nothing + join(pieces) =~= join(pieces));
    let found = lemma_head_over_a_run(head_bytes, head, nothing, behind, request, pieces, last);
    let more = behind_head(found.received + output_bytes(found.out), head_bytes.len());
    if found.later.len() == 0 {
        assert(join(found.later) =~= nothing);
        assert(more =~= behind);
        lemma_round_trip(chunks, last_extension);
        lemma_chunked_response_is_decoded(
            found.received,
            request,
            found.out,
            found.r,
            found.after,
        );
    } else {
        lemma_chunked_response_over_a_run(
            chunks,
            last_extension,
            found.received,
            request,
            found.out,
            found.r,
            found.after,
            found.later,
            last,
        );
    }
}

} // verus!
