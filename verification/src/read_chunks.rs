//! The machine that reads a body in the chunked transfer coding.

use crate::chunked::{
    concat, encodable, encode, has_read, is_extension, join, lemma_feed_after_starving,
    lemma_round_trip, lemma_settle, lemma_start_of_body_starves, none_empty, run, run_in_pieces,
    settle, Chunk, ChunkDecoder, Machine, Outcome, Progress,
};
use crate::stream::{accurate, output_bytes, reported_bytes};
use io_stream::coroutines::read::{ReadStream, ReadStreamError, ReadStreamResult};
use io_stream::io::StreamIo;
use vstd::prelude::*;

verus! {

/// The text that `String::from_utf8_lossy` makes of a byte string.
pub uninterp spec fn lossy_text(bytes: Seq<u8>) -> Seq<char>;

/// `String::from_utf8_lossy`, as an owned string: the text of a byte string,
/// with a replacement character for what is not UTF-8.
#[verifier::external_body]
pub(crate) fn lossy_string(bytes: &[u8]) -> (text: String)
    ensures
        text@ == lossy_text(bytes@),
{
    String::from_utf8_lossy(bytes).into_owned()
}

/// Why the machine stopped.
#[derive(Debug)]
pub enum ReadStreamChunksError {
    /// The stream ended before the body did.
    UnexpectedEof,
    /// A size line holds this text, which is no hexadecimal number that the
    /// machine can count to.
    InvalidChunkSize(String),
    /// The reader refused the driver's answer.
    ReadStream(ReadStreamError),
}

/// What a call of [`ReadStreamChunks::resume`] came to.
#[derive(Debug)]
pub enum ReadStreamChunksResult {
    /// The machine wants this I/O done.
    Io(StreamIo),
    /// The machine stopped on an error.
    Failed(ReadStreamChunksError),
    /// The machine is done: the decoded body.
    Done(Vec<u8>),
}

/// The machine that reads a body in the chunked transfer coding.
#[derive(Debug)]
pub struct ReadStreamChunks {
    read: ReadStream,
    decoder: ChunkDecoder,
}

/// What the machine returns, once its decoder has come to `outcome` and no
/// further answer of the driver is at hand.
pub open spec fn settled(outcome: Outcome, r: ReadStreamChunksResult, after: Machine) -> bool {
    match outcome {
        Outcome::Finished(body) => r matches ReadStreamChunksResult::Done(bytes) && bytes@ == body,
        Outcome::BadSize(text) => r matches ReadStreamChunksResult::Failed(
            ReadStreamChunksError::InvalidChunkSize(shown),
        ) && shown@ == lossy_text(text),
        Outcome::Starved(m) => r matches ReadStreamChunksResult::Io(StreamIo::Read(Err(_)))
            && after == m,
    }
}

/// What a call of `resume` returns and where it leaves the decoder, for a
/// decoder that stood at `before` and a driver that answered `arg`.
///
/// The decoder runs on what it holds. Only where that leaves it starved is the
/// answer looked at: a completed read is fed to the decoder, which runs again;
/// a read of no byte is the end of the stream, too early.
pub open spec fn resumed(
    before: Machine,
    arg: Option<StreamIo>,
    r: ReadStreamChunksResult,
    after: Machine,
) -> bool {
    match run(before) {
        Outcome::Starved(m) => match arg {
            Some(StreamIo::Read(Ok(out))) => if out.bytes_count == 0 {
                r matches ReadStreamChunksResult::Failed(ReadStreamChunksError::UnexpectedEof)
            } else {
                settled(run(m.fed(output_bytes(out))), r, after)
            },
            Some(StreamIo::Read(Err(buffer))) => r == ReadStreamChunksResult::Io(
                StreamIo::Read(Err(buffer)),
            ) && after == m,
            Some(StreamIo::Write(_)) => r matches ReadStreamChunksResult::Failed(
                ReadStreamChunksError::ReadStream(_),
            ),
            None => settled(run(before), r, after),
        },
        outcome => settled(outcome, r, after),
    }
}

/// The decoder stood at `before`, starved, was fed the bytes of the completed
/// read `arg`, and so came to `now`.
pub open spec fn fed_once(before: Machine, arg: Option<StreamIo>, now: Machine) -> bool {
    &&& arg matches Some(StreamIo::Read(Ok(out)))
    &&& out.bytes_count > 0
    &&& out.bytes_count <= out.buffer@.len()
    &&& run(before) matches Outcome::Starved(m)
    &&& now == m.fed(output_bytes(out))
}

impl ReadStreamChunks {
    /// The decoder inside the machine, as a value.
    pub closed spec fn view(&self) -> Machine {
        self.decoder@
    }

    /// The decoder inside the machine is well formed.
    pub open spec fn wf(&self) -> bool {
        self@.wf()
    }

    /// The reader through which the machine reads.
    pub closed spec fn reader(&self) -> ReadStream {
        self.read
    }

    /// A machine that reads through the given reader.
    pub fn new(read: ReadStream) -> (machine: Self)
        ensures
            machine@ == Machine::start(),
            machine.wf(),
            machine.reader() == read,
    {
        ReadStreamChunks { read, decoder: ChunkDecoder::new() }
    }

    /// Hands the machine bytes that were received before it reads any. They go
    /// before the input that it holds.
    pub fn extend(&mut self, bytes: Vec<u8>)
        ensures
            final(self)@ == old(self)@.seeded(bytes@),
            final(self).reader() == old(self).reader(),
            old(self).wf() ==> final(self).wf(),
    {
        self.decoder.seed(bytes);
    }

    /// Makes the machine progress.
    pub fn resume(&mut self, arg: Option<StreamIo>) -> (r: ReadStreamChunksResult)
        requires
            old(self).wf(),
            accurate(arg),
        ensures
            final(self).wf(),
            resumed(old(self)@, arg, r, final(self)@),
    {
        let mut pending = arg;
        loop
            invariant
                self.wf(),
                accurate(pending),
                accurate(arg),
                (pending == arg && run(self@) == run(old(self)@)) || (pending is None
                    && fed_once(old(self)@, arg, self@)),
            decreases
                    (if pending is Some {
                        1nat
                    } else {
                        0nat
                    }),
        {
            match self.decoder.advance() {
                Progress::Done(body) => {
                    return ReadStreamChunksResult::Done(body);
                },
                Progress::Invalid(text) => {
                    let shown = lossy_string(text.as_slice());
                    return ReadStreamChunksResult::Failed(
                        ReadStreamChunksError::InvalidChunkSize(shown),
                    );
                },
                Progress::NeedRead => {},
            }
            let output = match self.read.resume(pending.take()) {
                ReadStreamResult::Ok(output) => output,
                ReadStreamResult::Err(err) => {
                    return ReadStreamChunksResult::Failed(ReadStreamChunksError::ReadStream(err));
                },
                ReadStreamResult::Io(io) => {
                    return ReadStreamChunksResult::Io(io);
                },
                ReadStreamResult::Eof => {
                    return ReadStreamChunksResult::Failed(ReadStreamChunksError::UnexpectedEof);
                },
            };
            let bytes = reported_bytes(&output);
            self.decoder.feed(bytes.as_slice());
            self.read.replace(output.buffer);
        }
    }
}

/// A completed read is one piece of the input: a machine that has starved,
/// resumed with a read of some bytes, comes to what its decoder comes to when
/// it is fed those bytes as its next piece.
pub proof fn lemma_read_is_a_piece(
    before: Machine,
    out: io_stream::io::StreamOutput,
    r: ReadStreamChunksResult,
    after: Machine,
)
    requires
        run(before) is Starved,
        out.bytes_count > 0,
        resumed(before, Some(StreamIo::Read(Ok(out))), r, after),
    ensures
        settled(run_in_pieces(before, seq![output_bytes(out)]), r, after),
{
    let pieces = seq![output_bytes(out)];
    assert(pieces.drop_first().len() == 0);
    let fed = run(before)->Starved_0.fed(pieces[0]);
    assert(run_in_pieces(fed, pieces.drop_first()) == run(fed));
}

/// A machine whose decoder stands at `m` is resumed once for each piece, with
/// a completed read that brings the piece; each call but the last asks for the
/// next read, and `last` is what the last call returns.
pub open spec fn answered(m: Machine, pieces: Seq<Seq<u8>>, last: ReadStreamChunksResult) -> bool
    decreases pieces.len(),
{
    pieces.len() > 0 && exists|
        out: io_stream::io::StreamOutput,
        r: ReadStreamChunksResult,
        after: Machine,
    |
        #![auto]
        out.bytes_count > 0 && out.bytes_count <= out.buffer@.len() && output_bytes(out)
            == pieces[0] && resumed(m, Some(StreamIo::Read(Ok(out))), r, after) && if pieces.len()
            == 1 {
            r == last
        } else {
            r is Io && answered(after, pieces.drop_first(), last)
        }
}

/// A machine that has read the start of a body on the wire and waits for more,
/// and is brought the rest in reads of which none is empty, ends with the
/// body.
pub proof fn lemma_reads_rest_of_body(
    chunks: Seq<Chunk>,
    last_extension: Seq<u8>,
    m: Machine,
    read: Seq<u8>,
    pieces: Seq<Seq<u8>>,
    last: ReadStreamChunksResult,
)
    requires
        encodable(chunks),
        is_extension(last_extension),
        has_read(m, read),
        run(m) == Outcome::Starved(m),
        none_empty(pieces),
        read + join(pieces) == encode(chunks, last_extension),
        answered(m, pieces, last),
    ensures
        last matches ReadStreamChunksResult::Done(body) && body@ == concat(chunks),
    decreases pieces.len(),
{
    let (out, r, after) = choose|
        out: io_stream::io::StreamOutput,
        r: ReadStreamChunksResult,
        after: Machine,
    |
        #![auto]
        out.bytes_count > 0 && out.bytes_count <= out.buffer@.len() && output_bytes(out)
            == pieces[0] && resumed(m, Some(StreamIo::Read(Ok(out))), r, after) && if pieces.len()
            == 1 {
            r == last
        } else {
            r is Io && answered(after, pieces.drop_first(), last)
        };
    let piece = pieces[0];
    let later = pieces.drop_first();
    let nothing = Seq::<u8>::empty();
    assert(run(m.fed(piece)) == run(Machine::start().fed(read + piece)));
    assert(join(pieces) == piece + join(later));
    if pieces.len() == 1 {
        assert(join(later) =~= nothing);
        assert(read + piece =~= read + join(pieces));
        lemma_round_trip(chunks, last_extension);
    } else {
        assert(none_empty(later)) by {
            assert forall|i: int| 0 <= i < later.len() implies (#[trigger] later[i]).len()
                > 0 by {
                assert(later[i] == pieces[i + 1]);
            }
        }
        assert(join(later).len() > 0) by {
            assert(later[0].len() > 0);
        }
        assert((read + piece) + join(later) =~= read + join(pieces));
        lemma_start_of_body_starves(chunks, last_extension, read + piece, join(later));
        lemma_settle(m.fed(piece));
        lemma_settle(settle(m.fed(piece)));
        assert(after == settle(m.fed(piece)));
        assert(settle(after) == after);
        assert forall|more: Seq<u8>| #[trigger]
            run(after.fed(more)) == run(Machine::start().fed(read + piece + more)) by {
            lemma_feed_after_starving(m.fed(piece), more);
            assert(m.fed(piece).fed(more) == m.fed(piece + more)) by {
                assert(m.fed(piece).fed(more).buffer =~= m.fed(piece + more).buffer);
            }
            assert(run(m.fed(piece + more)) == run(Machine::start().fed(read + (piece + more))));
            assert(read + (piece + more) =~= read + piece + more);
        }
        lemma_reads_rest_of_body(chunks, last_extension, after, read + piece, later, last);
    }
}

/// Decoding undoes encoding, for the machine and any driver: a fresh machine
/// that has asked for its first read, and is brought a body on the wire in reads
/// of which none is empty, ends with the body.
pub proof fn lemma_reads_whole_body(
    chunks: Seq<Chunk>,
    last_extension: Seq<u8>,
    pieces: Seq<Seq<u8>>,
    last: ReadStreamChunksResult,
)
    requires
        encodable(chunks),
        is_extension(last_extension),
        none_empty(pieces),
        join(pieces) == encode(chunks, last_extension),
        answered(Machine::start(), pieces, last),
    ensures
        last matches ReadStreamChunksResult::Done(body) && body@ == concat(chunks),
{
    let nothing = Seq::<u8>::empty();
    let fresh = Machine::start();
    assert forall|more: Seq<u8>| #[trigger]
        run(fresh.fed(more)) == run(Machine::start().fed(nothing + more)) by {
        assert(nothing + more =~= more);
    }
    assert(nothing + join(pieces) =~= join(pieces));
    lemma_settle(fresh);
    assert(settle(fresh) == fresh) by {
        crate::search::lemma_first_index_none(fresh.buffer, crate::chunked::crlf());
    }
    lemma_reads_rest_of_body(chunks, last_extension, fresh, nothing, pieces, last);
}

} // verus!
