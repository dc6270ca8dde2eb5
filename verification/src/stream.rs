//! The byte-stream machines of `io_stream`, as this library sees them.
//!
//! The values that travel between a machine and its driver (`StreamIo`,
//! `StreamOutput` and the result enums) are declared with their variants and
//! fields. The machines themselves keep their fields private: what each one has
//! accumulated is given a name here, and the contracts below say how `new`,
//! `extend` and `resume` change it.

use io_stream::coroutines::read::{ReadStream, ReadStreamError, ReadStreamResult};
use io_stream::coroutines::read_exact::{
    ReadStreamExact, ReadStreamExactError, ReadStreamExactResult,
};
use io_stream::coroutines::read_to_end::{
    ReadStreamToEnd, ReadStreamToEndError, ReadStreamToEndResult,
};
use io_stream::coroutines::write::{WriteStream, WriteStreamError, WriteStreamResult};
use io_stream::io::{StreamIo, StreamOutput};
use vstd::prelude::*;

verus! {

/// `io_stream::io::StreamOutput`: a buffer and the number of its leading bytes
/// that were read or written.
#[verifier::external_type_specification]
pub struct ExStreamOutput(StreamOutput);

/// `io_stream::io::StreamIo`: a read or a write, wanted (`Err`, with the buffer
/// to use) or completed (`Ok`).
#[verifier::external_type_specification]
pub struct ExStreamIo(StreamIo);

/// `io_stream::coroutines::read::ReadStreamError`.
#[verifier::external_type_specification]
pub struct ExReadStreamError(ReadStreamError);

/// `io_stream::coroutines::read::ReadStreamResult`.
#[verifier::external_type_specification]
pub struct ExReadStreamResult(ReadStreamResult);

/// `io_stream::coroutines::read::ReadStream`, opaque.
#[verifier::external_type_specification]
#[verifier::external_body]
pub struct ExReadStream(ReadStream);

/// `io_stream::coroutines::write::WriteStreamError`.
#[verifier::external_type_specification]
pub struct ExWriteStreamError(WriteStreamError);

/// `io_stream::coroutines::write::WriteStreamResult`.
#[verifier::external_type_specification]
pub struct ExWriteStreamResult(WriteStreamResult);

/// `io_stream::coroutines::write::WriteStream`, opaque.
#[verifier::external_type_specification]
#[verifier::external_body]
pub struct ExWriteStream(io_stream::coroutines::write::WriteStream);

/// `io_stream::coroutines::read_exact::ReadStreamExactError`.
#[verifier::external_type_specification]
pub struct ExReadStreamExactError(ReadStreamExactError);

/// `io_stream::coroutines::read_exact::ReadStreamExactResult`.
#[verifier::external_type_specification]
pub struct ExReadStreamExactResult(ReadStreamExactResult);

/// `io_stream::coroutines::read_exact::ReadStreamExact`, opaque.
#[verifier::external_type_specification]
#[verifier::external_body]
pub struct ExReadStreamExact(io_stream::coroutines::read_exact::ReadStreamExact);

/// `io_stream::coroutines::read_to_end::ReadStreamToEndError`.
#[verifier::external_type_specification]
pub struct ExReadStreamToEndError(ReadStreamToEndError);

/// `io_stream::coroutines::read_to_end::ReadStreamToEndResult`.
#[verifier::external_type_specification]
pub struct ExReadStreamToEndResult(ReadStreamToEndResult);

/// `io_stream::coroutines::read_to_end::ReadStreamToEnd`, opaque.
#[verifier::external_type_specification]
#[verifier::external_body]
pub struct ExReadStreamToEnd(io_stream::coroutines::read_to_end::ReadStreamToEnd);

/// The bytes that a completed read or write reports.
pub open spec fn output_bytes(out: StreamOutput) -> Seq<u8>
    recommends
        out.bytes_count <= out.buffer@.len(),
{
    out.buffer@.subrange(0, out.bytes_count as int)
}

/// A driver's answer is accurate when the count it reports fits the buffer it
/// hands back.
pub open spec fn accurate(arg: Option<StreamIo>) -> bool {
    match arg {
        Some(StreamIo::Read(Ok(out))) => out.bytes_count <= out.buffer@.len(),
        Some(StreamIo::Write(Ok(out))) => out.bytes_count <= out.buffer@.len(),
        _ => true,
    }
}

/// Copies out the bytes that a completed read reports.
pub fn reported_bytes(out: &StreamOutput) -> (bytes: Vec<u8>)
    requires
        out.bytes_count <= out.buffer@.len(),
    ensures
        bytes@ == output_bytes(*out),
{
    let part = vstd::slice::slice_subrange(out.buffer.as_slice(), 0, out.bytes_count);
    vstd::slice::slice_to_vec(part)
}

/// `ReadStream::new`. Nothing of a fresh reader is visible from outside.
pub assume_specification[ io_stream::coroutines::read::ReadStream::new ]() -> (read:
    io_stream::coroutines::read::ReadStream);

/// `ReadStream::replace` hands the reader the buffer of its next request.
pub assume_specification[ io_stream::coroutines::read::ReadStream::replace ](
    read: &mut io_stream::coroutines::read::ReadStream,
    buffer: Vec<u8>,
);

/// `ReadStream::resume`. Without an argument, or with a request that was not
/// carried out, the reader asks for a read. A completed read of no byte is the
/// end of the stream; any other completed read is handed back as it came. A
/// write is refused.
pub assume_specification[ io_stream::coroutines::read::ReadStream::resume ](
    read: &mut io_stream::coroutines::read::ReadStream,
    arg: Option<StreamIo>,
) -> (r: ReadStreamResult)
    ensures
        arg is None ==> r matches ReadStreamResult::Io(StreamIo::Read(Err(_))),
        arg matches Some(StreamIo::Read(Err(buffer))) ==> r == ReadStreamResult::Io(
            StreamIo::Read(Err(buffer)),
        ),
        arg matches Some(StreamIo::Read(Ok(out))) ==> r == (if out.bytes_count == 0 {
            ReadStreamResult::Eof
        } else {
            ReadStreamResult::Ok(out)
        }),
        arg matches Some(StreamIo::Write(_)) ==> r is Err,
;

/// The bytes that a writer has yet to hand to its driver.
pub uninterp spec fn write_pending(write: WriteStream) -> Seq<u8>;

/// `WriteStream::new` keeps the given bytes for its first request.
pub assume_specification[ io_stream::coroutines::write::WriteStream::new ](
    bytes: Vec<u8>,
) -> (write: io_stream::coroutines::write::WriteStream)
    ensures
        write_pending(write) == bytes@,
;

/// `WriteStream::resume`. Without an argument the writer hands out all that it
/// holds in one write request. A completed write of no byte is the end of the
/// stream; any other completed write is handed back as it came. A read is
/// refused.
pub assume_specification[ io_stream::coroutines::write::WriteStream::resume ](
    write: &mut io_stream::coroutines::write::WriteStream,
    arg: Option<StreamIo>,
) -> (r: WriteStreamResult)
    ensures
        arg is None ==> (r matches WriteStreamResult::Io(StreamIo::Write(Err(bytes))) && bytes@
            == write_pending(*old(write))) && write_pending(*final(write)) == Seq::<u8>::empty(),
        arg is Some ==> write_pending(*final(write)) == write_pending(*old(write)),
        arg matches Some(StreamIo::Write(Err(bytes))) ==> r == WriteStreamResult::Io(
            StreamIo::Write(Err(bytes)),
        ),
        arg matches Some(StreamIo::Write(Ok(out))) ==> r == (if out.bytes_count == 0 {
            WriteStreamResult::Eof
        } else {
            WriteStreamResult::Ok(out)
        }),
        arg matches Some(StreamIo::Read(_)) ==> r is Err,
;

/// The bytes that a fixed-length reader has accumulated.
pub uninterp spec fn exact_held(read: ReadStreamExact) -> Seq<u8>;

/// The number of bytes at which a fixed-length reader stops.
pub uninterp spec fn exact_goal(read: ReadStreamExact) -> nat;

/// `ReadStreamExact::new` starts empty. It reserves room for the whole body at
/// once, which the allocator refuses above `isize::MAX`.
pub assume_specification[ io_stream::coroutines::read_exact::ReadStreamExact::new ](
    max: usize,
) -> (read: io_stream::coroutines::read_exact::ReadStreamExact)
    requires
        max <= isize::MAX,
    ensures
        exact_held(read) == Seq::<u8>::empty(),
        exact_goal(read) == max,
;

/// `ReadStreamExact::extend` appends to what the reader has accumulated.
#[verifier::external_body]
pub(crate) fn exact_extend(read: &mut ReadStreamExact, bytes: Vec<u8>)
    ensures
        exact_held(*final(read)) == exact_held(*old(read)) + bytes@,
        exact_goal(*final(read)) == exact_goal(*old(read)),
{
    read.extend(bytes)
}

/// What a fixed-length reader holds once it has taken in the argument of a
/// `resume`.
pub open spec fn held_after(held: Seq<u8>, arg: Option<StreamIo>) -> Seq<u8> {
    match arg {
        Some(StreamIo::Read(Ok(out))) if out.bytes_count > 0 => held + output_bytes(out),
        _ => held,
    }
}

/// `ReadStreamExact::resume`. A reader that already holds as many bytes as it
/// was made for, or more, returns all of them without looking at its argument.
/// Otherwise it takes in a completed read and tests again; a completed read of
/// no byte is an error, and so is a write. In every other case it asks for a
/// read.
pub assume_specification[ io_stream::coroutines::read_exact::ReadStreamExact::resume ](
    read: &mut io_stream::coroutines::read_exact::ReadStreamExact,
    arg: Option<StreamIo>,
) -> (r: ReadStreamExactResult)
    requires
        accurate(arg),
    ensures
        exact_goal(*final(read)) == exact_goal(*old(read)),
        exact_held(*old(read)).len() >= exact_goal(*old(read)) ==> (r matches
            ReadStreamExactResult::Ok(bytes) && bytes@ == exact_held(*old(read))),
        exact_held(*old(read)).len() < exact_goal(*old(read)) ==> ({
            let held = held_after(exact_held(*old(read)), arg);
            match arg {
                None => r matches ReadStreamExactResult::Io(StreamIo::Read(Err(_)))
                    && exact_held(*final(read)) == held,
                Some(StreamIo::Read(Err(buffer))) => r == ReadStreamExactResult::Io(
                    StreamIo::Read(Err(buffer)),
                ) && exact_held(*final(read)) == held,
                Some(StreamIo::Read(Ok(out))) => if out.bytes_count == 0 {
                    r matches ReadStreamExactResult::Err(
                        ReadStreamExactError::UnexpectedEof(_, _, _),
                    )
                } else if held.len() >= exact_goal(*old(read)) {
                    r matches ReadStreamExactResult::Ok(bytes) && bytes@ == held
                } else {
                    r matches ReadStreamExactResult::Io(StreamIo::Read(Err(_)))
                        && exact_held(*final(read)) == held
                },
                Some(StreamIo::Write(_)) => r matches ReadStreamExactResult::Err(
                    ReadStreamExactError::Read(_),
                ),
            }
        }),
;

/// The bytes that a reader to the end of the stream has accumulated.
pub uninterp spec fn to_end_held(read: ReadStreamToEnd) -> Seq<u8>;

/// `ReadStreamToEnd::new` starts empty.
pub assume_specification[ io_stream::coroutines::read_to_end::ReadStreamToEnd::new ]() -> (read:
    io_stream::coroutines::read_to_end::ReadStreamToEnd)
    ensures
        to_end_held(read) == Seq::<u8>::empty(),
;

/// `ReadStreamToEnd::extend` appends to what the reader has accumulated.
#[verifier::external_body]
pub(crate) fn to_end_extend(read: &mut ReadStreamToEnd, bytes: Vec<u8>)
    ensures
        to_end_held(*final(read)) == to_end_held(*old(read)) + bytes@,
{
    read.extend(bytes)
}

/// `ReadStreamToEnd::resume`. A completed read of no byte ends the stream: the
/// reader returns all that it holds. Any other completed read is appended, and
/// the reader asks for the next one. A write is refused.
pub assume_specification[ io_stream::coroutines::read_to_end::ReadStreamToEnd::resume ](
    read: &mut io_stream::coroutines::read_to_end::ReadStreamToEnd,
    arg: Option<StreamIo>,
) -> (r: ReadStreamToEndResult)
    requires
        accurate(arg),
    ensures
        match arg {
            None => r matches ReadStreamToEndResult::Io(StreamIo::Read(Err(_))) && to_end_held(
                *final(read),
            ) == to_end_held(*old(read)),
            Some(StreamIo::Read(Err(buffer))) => r == ReadStreamToEndResult::Io(
                StreamIo::Read(Err(buffer)),
            ) && to_end_held(*final(read)) == to_end_held(*old(read)),
            Some(StreamIo::Read(Ok(out))) => if out.bytes_count == 0 {
                r matches ReadStreamToEndResult::Ok(bytes) && bytes@ == to_end_held(*old(read))
            } else {
                r matches ReadStreamToEndResult::Io(StreamIo::Read(Err(_))) && to_end_held(
                    *final(read),
                ) == to_end_held(*old(read)) + output_bytes(out)
            },
            Some(StreamIo::Write(_)) => r is Err,
        },
;

} // verus!
