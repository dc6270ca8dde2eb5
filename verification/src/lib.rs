//! An I/O-free HTTP/1.1 client engine.
//!
//! Every protocol operation is a resumable state machine. A machine never
//! touches a socket: it hands its caller a [`io_stream::io::StreamIo`] request,
//! the caller performs the read or the write on a transport of its choice, and
//! resumes the machine with the completed request.

pub mod chunked;
pub mod head;
pub mod message;
pub mod number;
pub mod read_chunks;
pub mod redirect;
pub mod search;
pub mod send;
pub mod stream;
