//! The connection-level error type: a protocol message, a frame parse
//! failure, or an I/O failure reported by the driver.
use crate::frame::FrameParseError;
use vstd::prelude::*;

verus! {

#[derive(Debug)]
pub enum Error {
    Other(String),
    FrameParseError(FrameParseError),
    IO(String),
}

} // verus!
