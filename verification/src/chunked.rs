//! Decoding of the chunked transfer coding, as a machine on bytes.
//!
//! The decoder owns two byte strings: what it was fed and has not yet decoded,
//! and the body decoded so far. [`ChunkDecoder::advance`] runs it until it has
//! the whole body, meets a size line that is no number, or needs more input.
//! What it does is stated by [`run`], over a model of the decoder as a value.

use crate::number::{digit_value, digits_value, parse_radix, parse_unsigned};
use crate::search::{
    first_index, is_first, is_last, lemma_first_from, lemma_first_index, lemma_first_index_is,
    lemma_first_index_none, lemma_occurrence_starts_with, occurs_at,
};
use vstd::prelude::*;

verus! {

/// The line terminator.
pub open spec fn crlf() -> Seq<u8> {
    seq![13u8, 10u8]
}

/// The empty line that ends the trailer.
pub open spec fn crlf_crlf() -> Seq<u8> {
    seq![13u8, 10u8, 13u8, 10u8]
}

/// Where the decoder stands in the stream.
#[derive(Debug)]
pub enum State {
    /// Before a chunk's size line.
    ChunkSize,
    /// Inside a chunk: this many bytes are still to be moved to the body, the
    /// two of the line terminator that follows the data among them.
    ChunkData(usize),
    /// After the last chunk, before the end of the trailer.
    Trailer,
}

/// The decoder as a value.
pub struct Machine {
    pub state: State,
    /// The input that was fed and not yet decoded.
    pub buffer: Seq<u8>,
    /// The body decoded so far.
    pub body: Seq<u8>,
}

/// What one step of the decoder comes to.
pub enum Step {
    /// The decoder moved on.
    Next(Machine),
    /// The decoder cannot move without more input.
    Starved,
    /// The stream is at its end: the body is complete.
    Finished,
    /// The text of a size line is no number.
    BadSize(Seq<u8>),
}

/// What a run of the decoder comes to.
pub enum Outcome {
    /// The decoder stands here and needs more input.
    Starved(Machine),
    /// The stream is at its end, with this body.
    Finished(Seq<u8>),
    /// The text of a size line is no number.
    BadSize(Seq<u8>),
}

impl Machine {
    /// Inside a chunk, the body and what is still to come hold the two bytes
    /// that will be cut off at the chunk's end.
    pub open spec fn wf(self) -> bool {
        self.state matches State::ChunkData(n) ==> self.body.len() + n >= 2
    }

    /// The decoder before any input.
    pub open spec fn start() -> Machine {
        Machine { state: State::ChunkSize, buffer: Seq::empty(), body: Seq::empty() }
    }

    /// The decoder after it was fed `bytes`, which go behind the input that it
    /// holds.
    pub open spec fn fed(self, bytes: Seq<u8>) -> Machine {
        Machine { state: self.state, buffer: self.buffer + bytes, body: self.body }
    }

    /// The decoder after it was handed `bytes` that were received earlier: they
    /// go before the input that it holds.
    pub open spec fn seeded(self, bytes: Seq<u8>) -> Machine {
        Machine { state: self.state, buffer: bytes + self.buffer, body: self.body }
    }
}

/// The text of the size on a size line that ends at `line_end`: the line up to
/// its first `;`, or all of it.
pub open spec fn size_text(buffer: Seq<u8>, line_end: int) -> Seq<u8> {
    let line = buffer.subrange(0, line_end);
    match first_index(line, seq![0x3bu8]) {
        Some(ext) => line.subrange(0, ext),
        None => line,
    }
}

/// One step of the decoder.
pub open spec fn step(m: Machine) -> Step {
    match m.state {
        State::ChunkSize => match first_index(m.buffer, crlf()) {
            None => Step::Starved,
            Some(line_end) => {
                let text = size_text(m.buffer, line_end);
                match parse_unsigned(text, 16) {
                    None => Step::BadSize(text),
                    Some(size) => if size == 0 {
                        // The terminator stays, so that an empty trailer shows
                        // as two terminators in a row.
                        Step::Next(
                            Machine {
                                state: State::Trailer,
                                buffer: m.buffer.subrange(line_end, m.buffer.len() as int),
                                body: m.body,
                            },
                        )
                    } else if size + 2 > usize::MAX {
                        Step::BadSize(text)
                    } else {
                        Step::Next(
                            Machine {
                                state: State::ChunkData((size + 2) as usize),
                                buffer: m.buffer.subrange(line_end + 2, m.buffer.len() as int),
                                body: m.body,
                            },
                        )
                    },
                }
            },
        },
        State::ChunkData(remaining) => if remaining == 0 {
            Step::Next(
                Machine {
                    state: State::ChunkSize,
                    buffer: m.buffer,
                    body: m.body.subrange(0, m.body.len() - 2),
                },
            )
        } else if m.buffer.len() == 0 {
            Step::Starved
        } else {
            let moved = if remaining <= m.buffer.len() {
                remaining as int
            } else {
                m.buffer.len() as int
            };
            Step::Next(
                Machine {
                    state: State::ChunkData((remaining - moved) as usize),
                    buffer: m.buffer.subrange(moved, m.buffer.len() as int),
                    body: m.body + m.buffer.subrange(0, moved),
                },
            )
        },
        // The end of the trailer is an empty line at the very start of the
        // input, with no other empty line after it.
        State::Trailer => if is_last(m.buffer, crlf_crlf(), Some(0usize)) {
            Step::Finished
        } else {
            Step::Starved
        },
    }
}

/// What bounds the number of steps left: each step shortens the input or leaves
/// a chunk.
pub open spec fn measure(m: Machine) -> nat {
    2 * m.buffer.len() + if m.state is ChunkData {
        1nat
    } else {
        0nat
    }
}

/// A step that moves on comes closer to the end, and keeps the machine well
/// formed.
pub proof fn lemma_step_progress(m: Machine)
    requires
        step(m) is Next,
    ensures
        measure(step(m)->Next_0) < measure(m),
        m.wf() ==> step(m)->Next_0.wf(),
{
    if m.state is ChunkSize {
        lemma_first_from(m.buffer, crlf(), 0);
        let line_end = first_index(m.buffer, crlf()).unwrap();
        lemma_size_text(m.buffer, line_end);
    }
}

/// The size text is a prefix of its line.
pub proof fn lemma_size_text(buffer: Seq<u8>, line_end: int)
    requires
        0 <= line_end <= buffer.len(),
    ensures
        size_text(buffer, line_end).len() <= line_end,
{
    lemma_first_from(buffer.subrange(0, line_end), seq![0x3bu8], 0);
}

/// The decoder, run until it cannot move.
pub open spec fn run(m: Machine) -> Outcome
    decreases measure(m),
    via run_decreases
{
    match step(m) {
        Step::Next(next) => run(next),
        Step::Starved => Outcome::Starved(m),
        Step::Finished => Outcome::Finished(m.body),
        Step::BadSize(text) => Outcome::BadSize(text),
    }
}

#[via_fn]
proof fn run_decreases(m: Machine) {
    if step(m) is Next {
        lemma_step_progress(m);
    }
}

/// Where the decoder stands once it cannot move.
pub open spec fn settle(m: Machine) -> Machine
    decreases measure(m),
    via settle_decreases
{
    match step(m) {
        Step::Next(next) => settle(next),
        _ => m,
    }
}

#[via_fn]
proof fn settle_decreases(m: Machine) {
    if step(m) is Next {
        lemma_step_progress(m);
    }
}

/// A run comes to what the last step comes to, where the decoder then stands.
pub proof fn lemma_settle(m: Machine)
    ensures
        !(step(settle(m)) is Next),
        run(m) == match step(settle(m)) {
            Step::Finished => Outcome::Finished(settle(m).body),
            Step::BadSize(text) => Outcome::BadSize(text),
            _ => Outcome::Starved(settle(m)),
        },
    decreases measure(m),
{
    if step(m) is Next {
        lemma_step_progress(m);
        lemma_settle(step(m)->Next_0);
    }
}

/// What [`ChunkDecoder::advance`] came to.
#[derive(Debug)]
pub enum Progress {
    /// The decoder needs more input.
    NeedRead,
    /// The stream is at its end, with this body.
    Done(Vec<u8>),
    /// The text of a size line is no number.
    Invalid(Vec<u8>),
}

/// A decoder of the chunked transfer coding.
#[derive(Debug)]
pub struct ChunkDecoder {
    state: State,
    buffer: Vec<u8>,
    body: Vec<u8>,
}

fn line_end_bytes() -> (r: Vec<u8>)
    ensures
        r@ == crlf(),
{
    let mut r: Vec<u8> = Vec::new();
    r.push(13);
    r.push(10);
    assert(r@ == crlf());
    r
}

fn trailer_end_bytes() -> (r: Vec<u8>)
    ensures
        r@ == crlf_crlf(),
{
    let mut r: Vec<u8> = Vec::new();
    r.push(13);
    r.push(10);
    r.push(13);
    r.push(10);
    assert(r@ == crlf_crlf());
    r
}

impl ChunkDecoder {
    /// The decoder as a value.
    pub closed spec fn view(&self) -> Machine {
        Machine { state: self.state, buffer: self.buffer@, body: self.body@ }
    }

    /// A decoder before any input.
    pub fn new() -> (decoder: Self)
        ensures
            decoder@ == Machine::start(),
            decoder@.wf(),
    {
        ChunkDecoder { state: State::ChunkSize, buffer: Vec::new(), body: Vec::new() }
    }

    /// Feeds the decoder: the bytes go behind the input that it holds.
    pub fn feed(&mut self, bytes: &[u8])
        ensures
            final(self)@ == old(self)@.fed(bytes@),
    {
        self.buffer.extend_from_slice(bytes);
        assert(self.buffer@ =~= old(self).buffer@ + bytes@);
    }

    /// Hands the decoder bytes that were received before the input that it
    /// holds: they go before it.
    pub fn seed(&mut self, bytes: Vec<u8>)
        ensures
            final(self)@ == old(self)@.seeded(bytes@),
    {
        let mut input = bytes;
        input.append(&mut self.buffer);
        self.buffer = input;
    }

    /// Cuts `count` bytes off the front of the input.
    fn skip(&mut self, count: usize)
        requires
            count <= old(self).buffer@.len(),
        ensures
            final(self).buffer@ == old(self).buffer@.subrange(
                count as int,
                old(self).buffer@.len() as int,
            ),
            final(self).body == old(self).body,
            final(self).state == old(self).state,
    {
        let rest = self.buffer.split_off(count);
        self.buffer = rest;
    }

    /// Runs the decoder until it has the whole body, meets a size line that is
    /// no number, or needs more input. It then stands where [`run`] says.
    pub fn advance(&mut self) -> (r: Progress)
        requires
            old(self)@.wf(),
        ensures
            final(self)@.wf(),
            match run(old(self)@) {
                Outcome::Starved(m) => r is NeedRead && final(self)@ == m,
                Outcome::Finished(body) => r matches Progress::Done(bytes) && bytes@ == body,
                Outcome::BadSize(text) => r matches Progress::Invalid(bytes) && bytes@ == text,
            },
    {
        loop
            invariant
                self@.wf(),
                run(self@) == run(old(self)@),
            decreases measure(self@),
        {
            proof {
                if step(self@) is Next {
                    lemma_step_progress(self@);
                }
            }
            match self.state {
                State::ChunkSize => {
                    let mark = line_end_bytes();
                    let found = memchr::memmem::find(self.buffer.as_slice(), mark.as_slice());
                    proof {
                        lemma_first_index(self.buffer@, crlf(), found);
                    }
                    let line_end: usize = match found {
                        Some(i) => i,
                        None => {
                            return Progress::NeedRead;
                        },
                    };
                    let total = self.buffer.len();
                    assert(line_end + 2 <= total) by {
                        assert(crlf().len() == 2);
                        assert(is_first(self.buffer@, crlf(), found));
                    }
                    let line = vstd::slice::slice_subrange(self.buffer.as_slice(), 0, line_end);
                    let semicolon = memchr::memchr(0x3b, line);
                    proof {
                        lemma_first_index(line@, seq![0x3bu8], semicolon);
                    }
                    let ext: usize = match semicolon {
                        Some(i) => i,
                        None => line_end,
                    };
                    let text = vstd::slice::slice_subrange(line, 0, ext);
                    assert(text@ == size_text(self.buffer@, line_end as int));
                    let size: usize = match parse_radix(text, 16) {
                        Some(size) => size,
                        None => {
                            return Progress::Invalid(vstd::slice::slice_to_vec(text));
                        },
                    };
                    if size == 0 {
                        self.skip(line_end);
                        self.state = State::Trailer;
                    } else if size > usize::MAX - 2 {
                        return Progress::Invalid(vstd::slice::slice_to_vec(text));
                    } else {
                        self.skip(line_end + 2);
                        self.state = State::ChunkData(size + 2);
                    }
                },
                State::ChunkData(remaining) => {
                    if remaining == 0 {
                        let kept = self.body.len() - 2;
                        self.body.truncate(kept);
                        self.state = State::ChunkSize;
                    } else if self.buffer.len() == 0 {
                        return Progress::NeedRead;
                    } else {
                        let moved: usize = if remaining <= self.buffer.len() {
                            remaining
                        } else {
                            self.buffer.len()
                        };
                        let rest = self.buffer.split_off(moved);
                        self.body.append(&mut self.buffer);
                        self.buffer = rest;
                        self.state = State::ChunkData(remaining - moved);
                    }
                },
                State::Trailer => {
                    let mark = trailer_end_bytes();
                    let found = memchr::memmem::rfind(self.buffer.as_slice(), mark.as_slice());
                    let at_start = match found {
                        Some(i) => i == 0,
                        None => false,
                    };
                    if at_start {
                        let mut body: Vec<u8> = Vec::new();
                        std::mem::swap(&mut body, &mut self.body);
                        return Progress::Done(body);
                    } else {
                        return Progress::NeedRead;
                    }
                },
            }
        }
    }
}

/// One hexadecimal digit, in lower case.
pub open spec fn hex_digit(v: nat) -> u8 {
    if v < 10 {
        (0x30 + v) as u8
    } else {
        (0x57 + v) as u8
    }
}

/// A number in hexadecimal, without leading zeros.
pub open spec fn hex(n: nat) -> Seq<u8>
    decreases n,
{
    if n < 16 {
        seq![hex_digit(n)]
    } else {
        hex(n / 16).push(hex_digit(n % 16))
    }
}

/// A chunk to send: its data, and what stands between its size and the end of
/// the size line.
pub struct Chunk {
    pub data: Seq<u8>,
    pub extension: Seq<u8>,
}

/// What may stand behind a size on its line: nothing, or `;` and any bytes but
/// a carriage return.
pub open spec fn is_extension(extension: Seq<u8>) -> bool {
    &&& extension.len() > 0 ==> extension[0] == 0x3b
    &&& forall|i: int| 0 <= i < extension.len() ==> extension[i] != 13
}

/// A size line: the size in hexadecimal, the extension, and a line end.
pub open spec fn size_line(size: nat, extension: Seq<u8>) -> Seq<u8> {
    hex(size) + extension + crlf()
}

/// One chunk on the wire: its size line, its data, and a line end.
pub open spec fn encode_chunk(chunk: Chunk) -> Seq<u8> {
    size_line(chunk.data.len(), chunk.extension) + chunk.data + crlf()
}

/// The last chunk, of no data, and the empty trailer.
pub open spec fn last_chunk(extension: Seq<u8>) -> Seq<u8> {
    size_line(0, extension) + crlf()
}

/// A body on the wire, cut into the given chunks.
pub open spec fn encode(chunks: Seq<Chunk>, last_extension: Seq<u8>) -> Seq<u8>
    decreases chunks.len(),
{
    if chunks.len() == 0 {
        last_chunk(last_extension)
    } else {
        encode_chunk(chunks[0]) + encode(chunks.drop_first(), last_extension)
    }
}

/// The data of the chunks in a row: the body.
pub open spec fn concat(chunks: Seq<Chunk>) -> Seq<u8>
    decreases chunks.len(),
{
    if chunks.len() == 0 {
        Seq::empty()
    } else {
        chunks[0].data + concat(chunks.drop_first())
    }
}

/// Chunks that an encoder may send: none is empty, which would end the body,
/// the decoder can count to the end of each, and each extension is one.
pub open spec fn encodable(chunks: Seq<Chunk>) -> bool {
    forall|i: int|
        0 <= i < chunks.len() ==> 0 < (#[trigger] chunks[i]).data.len() <= usize::MAX - 2
            && is_extension(chunks[i].extension)
}

/// A number in hexadecimal is made of hexadecimal digits, and has the number
/// as its value.
pub proof fn lemma_hex(n: nat)
    ensures
        hex(n).len() >= 1,
        forall|i: int|
            0 <= i < hex(n).len() ==> 0x30 <= #[trigger] hex(n)[i] <= 0x39 || 0x61 <= hex(n)[i]
                <= 0x66,
        digits_value(hex(n), 16) == Some(n),
    decreases n,
{
    if n < 16 {
        assert(hex(n).drop_last() == Seq::<u8>::empty());
        assert(digits_value(hex(n).drop_last(), 16) == Some(0nat));
        assert(digit_value(hex_digit(n), 16) == Some(n));
    } else {
        lemma_hex(n / 16);
        assert(hex(n).drop_last() == hex(n / 16));
        assert(digit_value(hex_digit(n % 16), 16) == Some(n % 16));
    }
}

/// No line end starts inside a size or its extension: in input that starts
/// with a size line, the first line end is that of the size line.
pub proof fn lemma_size_line_end(n: nat, extension: Seq<u8>, rest: Seq<u8>)
    requires
        is_extension(extension),
    ensures
        first_index(size_line(n, extension) + rest, crlf()) == Some(
            (hex(n).len() + extension.len()) as int,
        ),
{
    lemma_hex(n);
    let buffer = size_line(n, extension) + rest;
    let end = (hex(n).len() + extension.len()) as int;
    assert(occurs_at(buffer, crlf(), end)) by {
        assert(buffer.subrange(end, end + 2) =~= crlf());
    }
    assert forall|j: int| 0 <= j < end implies !occurs_at(buffer, crlf(), j) by {
        if occurs_at(buffer, crlf(), j) {
            lemma_occurrence_starts_with(buffer, crlf(), j);
            if j < hex(n).len() {
                assert(buffer[j] == hex(n)[j]);
            } else {
                assert(buffer[j] == extension[j - hex(n).len()]);
            }
        }
    }
    lemma_first_index_is(buffer, crlf(), end);
}

/// The text of a size line is its size: the extension is left out.
pub proof fn lemma_size_line_text(n: nat, extension: Seq<u8>, rest: Seq<u8>)
    requires
        is_extension(extension),
    ensures
        size_text(size_line(n, extension) + rest, (hex(n).len() + extension.len()) as int) == hex(
            n,
        ),
{
    lemma_hex(n);
    let buffer = size_line(n, extension) + rest;
    let size = hex(n).len() as int;
    let line = buffer.subrange(0, size + extension.len());
    assert(line =~= hex(n) + extension);
    assert forall|j: int| 0 <= j < size implies !occurs_at(line, seq![0x3bu8], j) by {
        if occurs_at(line, seq![0x3bu8], j) {
            lemma_occurrence_starts_with(line, seq![0x3bu8], j);
            assert(line[j] == hex(n)[j]);
        }
    }
    if extension.len() == 0 {
        assert forall|j: int| 0 <= j implies !occurs_at(line, seq![0x3bu8], j) by {
            if occurs_at(line, seq![0x3bu8], j) {
                lemma_occurrence_starts_with(line, seq![0x3bu8], j);
            }
        }
        lemma_first_index_none(line, seq![0x3bu8]);
    } else {
        assert(occurs_at(line, seq![0x3bu8], size)) by {
            assert(line.subrange(size, size + 1) =~= seq![0x3bu8]);
        }
        lemma_first_index_is(line, seq![0x3bu8], size);
        assert(line.subrange(0, size) =~= hex(n));
    }
}

/// Parsing in base sixteen undoes writing a number in hexadecimal.
pub proof fn lemma_hex_round_trip(n: nat)
    requires
        n <= usize::MAX,
    ensures
        parse_unsigned(hex(n), 16) == Some(n as usize),
{
    lemma_hex(n);
    assert(hex(n)[0] != 0x2bu8);
}

/// The decoder, before the last chunk, finishes with the body that it has.
pub proof fn lemma_decodes_last_chunk(extension: Seq<u8>, body: Seq<u8>)
    requires
        is_extension(extension),
    ensures
        run(Machine { state: State::ChunkSize, buffer: last_chunk(extension), body })
            == Outcome::Finished(body),
        settle(Machine { state: State::ChunkSize, buffer: last_chunk(extension), body }) == (
        Machine { state: State::Trailer, buffer: crlf_crlf(), body }),
{
    let m = Machine { state: State::ChunkSize, buffer: last_chunk(extension), body };
    lemma_size_line_end(0, extension, crlf());
    lemma_size_line_text(0, extension, crlf());
    lemma_hex_round_trip(0);
    let end = (hex(0).len() + extension.len()) as int;
    let trailer = Machine {
        state: State::Trailer,
        buffer: m.buffer.subrange(end, m.buffer.len() as int),
        body,
    };
    assert(step(m) == Step::Next(trailer));
    assert(trailer.buffer =~= crlf_crlf());
    assert(occurs_at(trailer.buffer, crlf_crlf(), 0)) by {
        assert(trailer.buffer.subrange(0, 4) =~= crlf_crlf());
    }
    assert(step(trailer) == Step::Finished);
    assert(run(m) == run(trailer));
    assert(settle(m) == settle(trailer));
}

/// Decoding undoes encoding: the decoder, given the whole of a body on the
/// wire, finishes with the body, behind what it had decoded before. What
/// extensions the size lines carry makes no difference.
pub proof fn lemma_decode_encode(chunks: Seq<Chunk>, last_extension: Seq<u8>, body: Seq<u8>)
    requires
        encodable(chunks),
        is_extension(last_extension),
    ensures
        run(Machine { state: State::ChunkSize, buffer: encode(chunks, last_extension), body })
            == Outcome::Finished(body + concat(chunks)),
        settle(Machine { state: State::ChunkSize, buffer: encode(chunks, last_extension), body })
            == (Machine {
            state: State::Trailer,
            buffer: crlf_crlf(),
            body: body + concat(chunks),
        }),
    decreases chunks.len(),
{
    if chunks.len() == 0 {
        lemma_decodes_last_chunk(last_extension, body);
        assert(body + concat(chunks) =~= body);
    } else {
        let data = chunks[0].data;
        let extension = chunks[0].extension;
        let size = data.len();
        let rest = encode(chunks.drop_first(), last_extension);
        let behind = data + crlf() + rest;
        let m = Machine { state: State::ChunkSize, buffer: encode(chunks, last_extension), body };
        assert(m.buffer =~= size_line(size, extension) + behind);
        lemma_size_line_end(size, extension, behind);
        lemma_size_line_text(size, extension, behind);
        lemma_hex_round_trip(size);
        let end = (hex(size).len() + extension.len()) as int;
        let in_chunk = Machine {
            state: State::ChunkData((size + 2) as usize),
            buffer: m.buffer.subrange(end + 2, m.buffer.len() as int),
            body,
        };
        assert(step(m) == Step::Next(in_chunk));
        assert(in_chunk.buffer =~= behind);
        let at_end = Machine {
            state: State::ChunkData(0),
            buffer: in_chunk.buffer.subrange(size as int + 2, in_chunk.buffer.len() as int),
            body: body + in_chunk.buffer.subrange(0, size as int + 2),
        };
        assert(step(in_chunk) == Step::Next(at_end));
        assert(at_end.buffer =~= rest);
        assert(at_end.body =~= body + data + crlf());
        let next = Machine {
            state: State::ChunkSize,
            buffer: at_end.buffer,
            body: at_end.body.subrange(0, at_end.body.len() - 2),
        };
        assert(step(at_end) == Step::Next(next));
        assert(next.body =~= body + data);
        assert(run(m) == run(in_chunk));
        assert(run(in_chunk) == run(at_end));
        assert(run(at_end) == run(next));
        assert(settle(m) == settle(in_chunk));
        assert(settle(in_chunk) == settle(at_end));
        assert(settle(at_end) == settle(next));
        assert(encodable(chunks.drop_first())) by {
            assert forall|i: int| 0 <= i < chunks.drop_first().len() implies 0 < (
            #[trigger] chunks.drop_first()[i]).data.len() <= usize::MAX - 2 && is_extension(
                chunks.drop_first()[i].extension,
            ) by {
                assert(chunks.drop_first()[i] == chunks[i + 1]);
            }
        }
        lemma_decode_encode(chunks.drop_first(), last_extension, body + data);
        assert(next == Machine { state: State::ChunkSize, buffer: rest, body: body + data });
        assert((body + data) + concat(chunks.drop_first()) =~= body + concat(chunks));
    }
}

/// A fresh decoder that is fed a whole body on the wire finishes with the
/// body, whatever extensions the size lines carry.
pub proof fn lemma_round_trip(chunks: Seq<Chunk>, last_extension: Seq<u8>)
    requires
        encodable(chunks),
        is_extension(last_extension),
    ensures
        run(Machine::start().fed(encode(chunks, last_extension))) == Outcome::Finished(
            concat(chunks),
        ),
{
    lemma_decode_encode(chunks, last_extension, Seq::empty());
    assert(Machine::start().fed(encode(chunks, last_extension)) == Machine {
        state: State::ChunkSize,
        buffer: encode(chunks, last_extension),
        body: Seq::<u8>::empty(),
    }) by {
        assert(Seq::<u8>::empty() + encode(chunks, last_extension) =~= encode(
            chunks,
            last_extension,
        ));
    }
    assert(Seq::<u8>::empty() + concat(chunks) =~= concat(chunks));
}

/// Input that comes behind what the decoder holds does not change a step that
/// the decoder can take without it: the run comes to the same.
pub proof fn lemma_step_before_feeding(m: Machine, more: Seq<u8>)
    requires
        step(m) is Next,
    ensures
        run(m.fed(more)) == run(step(m)->Next_0.fed(more)),
        settle(m.fed(more)) == settle(step(m)->Next_0.fed(more)),
{
    let next = step(m)->Next_0;
    let fed = m.fed(more);
    match m.state {
        State::ChunkSize => {
            lemma_first_from(m.buffer, crlf(), 0);
            let end = first_index(m.buffer, crlf()).unwrap();
            assert(occurs_at(fed.buffer, crlf(), end)) by {
                assert(fed.buffer.subrange(end, end + 2) =~= m.buffer.subrange(end, end + 2));
            }
            assert(crlf().len() == 2);
            assert(end + 2 <= m.buffer.len());
            assert forall|j: int| 0 <= j < end implies !occurs_at(fed.buffer, crlf(), j) by {
                assert(!occurs_at(m.buffer, crlf(), j));
                assert(fed.buffer.subrange(j, j + 2) =~= m.buffer.subrange(j, j + 2));
            }
            lemma_first_index_is(fed.buffer, crlf(), end);
            assert(fed.buffer.subrange(0, end) =~= m.buffer.subrange(0, end));
            assert(fed.buffer.subrange(end, fed.buffer.len() as int) =~= m.buffer.subrange(
                end,
                m.buffer.len() as int,
            ) + more);
            assert(fed.buffer.subrange(end + 2, fed.buffer.len() as int) =~= m.buffer.subrange(
                end + 2,
                m.buffer.len() as int,
            ) + more);
            assert(step(fed) == Step::Next(next.fed(more)));
        },
        State::ChunkData(remaining) => {
            if remaining == 0 {
                assert(step(fed) == Step::Next(next.fed(more)));
            } else if remaining <= m.buffer.len() {
                assert(fed.buffer.subrange(0, remaining as int) =~= m.buffer.subrange(
                    0,
                    remaining as int,
                ));
                assert(fed.buffer.subrange(remaining as int, fed.buffer.len() as int)
                    =~= m.buffer.subrange(remaining as int, m.buffer.len() as int) + more);
                assert(step(fed) == Step::Next(next.fed(more)));
            } else if more.len() == 0 {
                assert(fed.buffer =~= m.buffer);
                assert(next.fed(more).buffer =~= next.buffer);
            } else {
                let held = m.buffer.len() as int;
                let left = remaining - held;
                let taken = if left <= more.len() {
                    left
                } else {
                    more.len() as int
                };
                let both = Machine {
                    state: State::ChunkData((left - taken) as usize),
                    buffer: more.subrange(taken, more.len() as int),
                    body: m.body + m.buffer + more.subrange(0, taken),
                };
                assert(next.buffer =~= Seq::<u8>::empty());
                assert(next.fed(more).buffer =~= more);
                assert(next.body =~= m.body + m.buffer);
                assert(step(next.fed(more)) == Step::Next(both));
                assert(fed.buffer.subrange(0, held + taken) =~= m.buffer + more.subrange(0, taken));
                assert(fed.buffer.subrange(held + taken, fed.buffer.len() as int) =~= more.subrange(
                    taken,
                    more.len() as int,
                ));
                assert(m.body + (m.buffer + more.subrange(0, taken)) =~= both.body);
                assert(step(fed) == Step::Next(both));
            }
        },
        State::Trailer => {},
    }
}

/// A decoder that was run until it starved, and is then fed, comes to what it
/// would have come to had it been fed first.
pub proof fn lemma_feed_after_starving(m: Machine, more: Seq<u8>)
    requires
        run(m) is Starved,
    ensures
        run(m.fed(more)) == run(run(m)->Starved_0.fed(more)),
    decreases measure(m),
{
    if step(m) is Next {
        lemma_step_progress(m);
        lemma_step_before_feeding(m, more);
        lemma_feed_after_starving(step(m)->Next_0, more);
    }
}

/// The pieces in a row.
pub open spec fn join(pieces: Seq<Seq<u8>>) -> Seq<u8>
    decreases pieces.len(),
{
    if pieces.len() == 0 {
        Seq::empty()
    } else {
        pieces[0] + join(pieces.drop_first())
    }
}

/// What a decoder comes to that is run, and, as long as it starves and pieces
/// are left, is fed the next piece and run again.
pub open spec fn run_in_pieces(m: Machine, pieces: Seq<Seq<u8>>) -> Outcome
    decreases pieces.len(),
{
    if pieces.len() == 0 {
        run(m)
    } else {
        match run(m) {
            Outcome::Starved(starved) => run_in_pieces(
                starved.fed(pieces[0]),
                pieces.drop_first(),
            ),
            outcome => outcome,
        }
    }
}

/// The number of pieces that such a decoder is fed.
pub open spec fn pieces_fed(m: Machine, pieces: Seq<Seq<u8>>) -> nat
    decreases pieces.len(),
{
    if pieces.len() == 0 {
        0
    } else {
        match run(m) {
            Outcome::Starved(starved) => 1 + pieces_fed(
                starved.fed(pieces[0]),
                pieces.drop_first(),
            ),
            _ => 0,
        }
    }
}

/// How the input is cut into pieces makes no difference: a decoder that is fed
/// piece by piece comes to what it comes to when it is fed, at once, all the
/// pieces that it was fed.
pub proof fn lemma_pieces_make_no_difference(m: Machine, pieces: Seq<Seq<u8>>)
    ensures
        pieces_fed(m, pieces) <= pieces.len(),
        run_in_pieces(m, pieces) == run(
            m.fed(join(pieces.subrange(0, pieces_fed(m, pieces) as int))),
        ),
    decreases pieces.len(),
{
    let fed = pieces.subrange(0, pieces_fed(m, pieces) as int);
    if pieces.len() > 0 && run(m) is Starved {
        let starved = run(m)->Starved_0;
        let rest = pieces.drop_first();
        let then = starved.fed(pieces[0]);
        lemma_pieces_make_no_difference(then, rest);
        let later = rest.subrange(0, pieces_fed(then, rest) as int);
        assert(fed.drop_first() =~= later);
        assert(join(fed) == pieces[0] + join(later));
        lemma_feed_after_starving(m, join(fed));
        assert(starved.fed(join(fed)).buffer =~= then.fed(join(later)).buffer);
        assert(starved.fed(join(fed)) == then.fed(join(later)));
    } else {
        assert(fed =~= Seq::<Seq<u8>>::empty());
        assert(m.fed(join(fed)).buffer =~= m.buffer);
        assert(m.fed(join(fed)) == m);
    }
}

/// A decoder that holds no input makes no difference between what goes before
/// its input and what goes behind it.
pub proof fn lemma_seed_without_input(m: Machine, bytes: Seq<u8>)
    requires
        m.buffer.len() == 0,
    ensures
        m.seeded(bytes) == m.fed(bytes),
{
    assert(bytes + m.buffer =~= m.buffer + bytes);
}

/// A decoder that was run until it could not move, and is then fed, comes to
/// stand where it would have, had it been fed first.
pub proof fn lemma_feed_after_settling(m: Machine, more: Seq<u8>)
    ensures
        settle(m.fed(more)) == settle(settle(m).fed(more)),
    decreases measure(m),
{
    if step(m) is Next {
        lemma_step_progress(m);
        lemma_step_before_feeding(m, more);
        lemma_feed_after_settling(step(m)->Next_0, more);
    }
}

/// A size line that is no number stays so, whatever comes behind it.
pub proof fn lemma_bad_size_stays(m: Machine, more: Seq<u8>)
    requires
        step(m) is BadSize,
    ensures
        step(m.fed(more)) == step(m),
{
    let fed = m.fed(more);
    lemma_first_from(m.buffer, crlf(), 0);
    let end = first_index(m.buffer, crlf()).unwrap();
    assert(crlf().len() == 2);
    assert(occurs_at(fed.buffer, crlf(), end)) by {
        assert(fed.buffer.subrange(end, end + 2) =~= m.buffer.subrange(end, end + 2));
    }
    assert forall|j: int| 0 <= j < end implies !occurs_at(fed.buffer, crlf(), j) by {
        assert(!occurs_at(m.buffer, crlf(), j));
        assert(fed.buffer.subrange(j, j + 2) =~= m.buffer.subrange(j, j + 2));
    }
    lemma_first_index_is(fed.buffer, crlf(), end);
    assert(fed.buffer.subrange(0, end) =~= m.buffer.subrange(0, end));
}

/// A decoder that has only the start of a body on the wire starves: it neither
/// finishes early nor takes a size line for a bad one.
pub proof fn lemma_start_of_body_starves(
    chunks: Seq<Chunk>,
    last_extension: Seq<u8>,
    start: Seq<u8>,
    rest: Seq<u8>,
)
    requires
        encodable(chunks),
        is_extension(last_extension),
        start + rest == encode(chunks, last_extension),
        rest.len() > 0,
    ensures
        run(Machine::start().fed(start)) is Starved,
{
    let whole = Machine::start().fed(encode(chunks, last_extension));
    let part = Machine::start().fed(start);
    let stood = settle(part);
    lemma_decode_encode(chunks, last_extension, Seq::empty());
    assert(whole == Machine {
        state: State::ChunkSize,
        buffer: encode(chunks, last_extension),
        body: Seq::<u8>::empty(),
    }) by {
        assert(Seq::<u8>::empty() + encode(chunks, last_extension) =~= encode(
            chunks,
            last_extension,
        ));
    }
    assert(part.fed(rest) == whole) by {
        assert(part.fed(rest).buffer =~= whole.buffer);
    }
    lemma_feed_after_settling(part, rest);
    lemma_settle(part);
    lemma_settle(stood.fed(rest));
    let end = settle(stood.fed(rest));
    assert(end.state is Trailer && end.buffer == crlf_crlf());
    match step(stood) {
        Step::BadSize(text) => {
            lemma_bad_size_stays(stood, rest);
            assert(settle(stood.fed(rest)) == stood.fed(rest));
        },
        Step::Finished => {
            assert(settle(stood.fed(rest)) == stood.fed(rest));
            assert(stood.buffer.len() + rest.len() == 4);
            assert(!occurs_at(stood.buffer, crlf_crlf(), 0));
        },
        _ => {},
    }
}

/// The decoder stands for the input `read`: fed anything more, it comes to what
/// a fresh decoder comes to that is fed `read` and then the same.
pub open spec fn has_read(m: Machine, read: Seq<u8>) -> bool {
    forall|more: Seq<u8>| #[trigger] run(m.fed(more)) == run(Machine::start().fed(read + more))
}

/// No piece is empty.
pub open spec fn none_empty(pieces: Seq<Seq<u8>>) -> bool {
    forall|i: int| 0 <= i < pieces.len() ==> (#[trigger] pieces[i]).len() > 0
}

/// A decoder that has read the start of a body on the wire, and is fed the
/// rest in pieces of which none is empty, reads every piece and finishes with
/// the body.
pub proof fn lemma_decodes_rest_in_pieces(
    chunks: Seq<Chunk>,
    last_extension: Seq<u8>,
    m: Machine,
    read: Seq<u8>,
    pieces: Seq<Seq<u8>>,
)
    requires
        encodable(chunks),
        is_extension(last_extension),
        has_read(m, read),
        none_empty(pieces),
        read + join(pieces) == encode(chunks, last_extension),
    ensures
        pieces_fed(m, pieces) == pieces.len(),
        run_in_pieces(m, pieces) == Outcome::Finished(concat(chunks)),
    decreases pieces.len(),
{
    let nothing = Seq::<u8>::empty();
    assert(m.fed(nothing) == m) by {
        assert(m.fed(nothing).buffer =~= m.buffer);
    }
    assert(run(m.fed(nothing)) == run(Machine::start().fed(read + nothing)));
    assert(read + nothing =~= read);
    if pieces.len() == 0 {
        lemma_round_trip(chunks, last_extension);
    } else {
        let piece = pieces[0];
        let later = pieces.drop_first();
        assert(join(pieces).len() > 0);
        lemma_start_of_body_starves(chunks, last_extension, read, join(pieces));
        let starved = run(m)->Starved_0;
        let then = starved.fed(piece);
        assert forall|more: Seq<u8>| #[trigger]
            run(then.fed(more)) == run(Machine::start().fed(read + piece + more)) by {
            lemma_feed_after_starving(m, piece + more);
            assert(then.fed(more) == starved.fed(piece + more)) by {
                assert(then.fed(more).buffer =~= starved.fed(piece + more).buffer);
            }
            assert(run(m.fed(piece + more)) == run(
                Machine::start().fed(read + (piece + more)),
            ));
            assert(read + (piece + more) =~= read + piece + more);
        }
        assert(none_empty(later)) by {
            assert forall|i: int| 0 <= i < later.len() implies (#[trigger] later[i]).len()
                > 0 by {
                assert(later[i] == pieces[i + 1]);
            }
        }
        assert(read + piece + join(later) =~= read + join(pieces));
        lemma_decodes_rest_in_pieces(chunks, last_extension, then, read + piece, later);
    }
}

/// Decoding undoes encoding however the wire form is cut: a fresh decoder that
/// is fed a body on the wire in pieces, of which none is empty, reads every
/// piece and finishes with the body.
pub proof fn lemma_round_trip_in_any_pieces(
    chunks: Seq<Chunk>,
    last_extension: Seq<u8>,
    pieces: Seq<Seq<u8>>,
)
    requires
        encodable(chunks),
        is_extension(last_extension),
        none_empty(pieces),
        join(pieces) == encode(chunks, last_extension),
    ensures
        pieces_fed(Machine::start(), pieces) == pieces.len(),
        run_in_pieces(Machine::start(), pieces) == Outcome::Finished(concat(chunks)),
{
    let nothing = Seq::<u8>::empty();
    assert forall|more: Seq<u8>| #[trigger]
        run(Machine::start().fed(more)) == run(Machine::start().fed(nothing + more)) by {
        assert(nothing + more =~= more);
    }
    assert(nothing + join(pieces) =~= join(pieces));
    lemma_decodes_rest_in_pieces(chunks, last_extension, Machine::start(), nothing, pieces);
}

/// A fresh decoder that was fed `read` and starved stands for that input, and
/// stays where it is until it is fed.
pub proof fn lemma_starved_has_read(read: Seq<u8>)
    requires
        run(Machine::start().fed(read)) is Starved,
    ensures
        has_read(run(Machine::start().fed(read))->Starved_0, read),
        run(run(Machine::start().fed(read))->Starved_0) == run(Machine::start().fed(read)),
{
    let fed = Machine::start().fed(read);
    let starved = run(fed)->Starved_0;
    lemma_settle(fed);
    lemma_settle(starved);
    assert forall|more: Seq<u8>| #[trigger]
        run(starved.fed(more)) == run(Machine::start().fed(read + more)) by {
        lemma_feed_after_starving(fed, more);
        assert(fed.fed(more) == Machine::start().fed(read + more)) by {
            assert(fed.fed(more).buffer =~= Machine::start().fed(read + more).buffer);
        }
    }
}

} // verus!
