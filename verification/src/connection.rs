//! The per-client cycle, minus the socket: the driver feeds bytes in and
//! carries reply bytes out. Reading a frame either completes one, waits for
//! more bytes, or fails terminally; a decode failure is answered with an
//! error frame and the connection goes on, exactly one reply per request.
use crate::backend::{backend_step, parse_error_bytes, Backend};
use crate::buffer::BufferedStream;
use crate::command::{spec_from_frame, Command, Decoded};
use crate::error::Error;
use crate::buffer::is_suffix_of;
use crate::frame::{encode_frame, parse_frame, Frame, FrameParseError, FrameSimple, Parsed, SimpleModel, FrameModel};
use vstd::prelude::*;

verus! {

/// One client's read state: a buffer of bytes that arrived and are not yet
/// part of a completed frame.
pub struct Connection {
    stream: BufferedStream,
}

impl Connection {
    /// The bytes received and not yet consumed by a completed frame.
    pub closed spec fn buffered(&self) -> Seq<u8> {
        self.stream.remaining()
    }

    pub fn new() -> (r: Connection)
        ensures
            r.buffered() == Seq::<u8>::empty(),
    {
        Connection { stream: BufferedStream::new() }
    }

    /// Hands the connection bytes the driver read from its stream.
    pub fn feed(&mut self, bytes: &[u8])
        ensures
            final(self).buffered() == old(self).buffered() + bytes@,
    {
        self.stream.feed(bytes);
    }

    /// Tries to read one frame from the buffered bytes. `Ok(Some(frame))`
    /// consumes exactly the frame's encoding; `Ok(None)` means more bytes are
    /// needed and nothing was consumed; a terminal protocol violation ends the
    /// connection.
    pub fn read_frame(&mut self) -> (r: Result<Option<Frame>, Error>)
        ensures
            match parse_frame(old(self).buffered()) {
                Parsed::Done { value, used } => r is Ok && r->Ok_0 is Some && r->Ok_0->Some_0@
                    == value && final(self).buffered() == old(self).buffered().skip(used),
                Parsed::Incomplete => r is Ok && r->Ok_0 is None && final(self).buffered() == old(
                    self,
                ).buffered(),
                Parsed::Bad => r is Err && r->Err_0 is FrameParseError && is_suffix_of(
                    final(self).buffered(),
                    old(self).buffered(),
                ),
            },
    {
        let saved = self.stream.remaining_bytes();
        match Frame::parse(&mut self.stream) {
            Ok(frame) => Ok(Some(frame)),
            Err(FrameParseError::Incomplete) => {
                // A partial frame: put the bytes back and wait for more.
                self.stream.reset();
                self.stream.feed(saved.as_slice());
                proof {
                    assert(Seq::<u8>::empty() + saved@ =~= saved@);
                }
                Ok(None)
            },
            Err(e) => Err(Error::FrameParseError(e)),
        }
    }

    /// How the connection ends once the stream yields no more bytes: with
    /// nothing buffered the peer closed cleanly between requests; with bytes
    /// still buffered it cut off inside a frame, a connection reset.
    pub fn classify_eof(&self) -> (r: Result<(), Error>)
        ensures
            r is Ok <==> self.buffered().len() == 0,
            r is Err ==> r->Err_0 is IO,
    {
        if self.stream.has_remaining() {
            Err(Error::IO(String::from_str("connection reset by peer")))
        } else {
            Ok(())
        }
    }

    /// Appends the encoding of a reply frame to the driver's output buffer.
    pub fn write_frame(&self, frame: &Frame, out: &mut Vec<u8>)
        ensures
            final(out)@ == old(out)@ + encode_frame(frame@),
    {
        frame.write(out);
    }
}

/// One request's journey once a frame arrived: decode it and run it on the
/// backend, or answer a decode failure with an error frame and leave the
/// stores untouched. The connection survives either way.
pub fn respond_to_frame(backend: &mut Backend, frame: Frame) -> (r: Frame)
    requires
        old(backend).wf(),
    ensures
        final(backend).wf(),
        match spec_from_frame(frame@) {
            Decoded::Cmd(c) => final(backend).shards() == backend_step(
                old(backend).shards(),
                c,
            ).shards && r@ == backend_step(old(backend).shards(), c).reply,
            _ => final(backend).shards() == old(backend).shards() && r@ == FrameModel::Simple(
                SimpleModel::Error(parse_error_bytes()),
            ),
        },
{
    match Command::from_frame(frame) {
        Ok(cmd) => backend.process(cmd),
        Err(_) => {
            let msg: Vec<u8> = vec![
                112u8,
                97u8,
                114u8,
                115u8,
                101u8,
                32u8,
                101u8,
                114u8,
                114u8,
                111u8,
                114u8,
            ];
            proof {
                assert(msg@ =~= parse_error_bytes());
            }
            Frame::Simple(FrameSimple::Error(msg))
        },
    }
}

} // verus!
