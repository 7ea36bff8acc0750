use vstd::prelude::*;
use crate::record::Record;

verus! {

/// Why a reader could not hand out a chunk.
#[derive(Debug)]
pub struct ReadError {
    pub message: String,
}

/// Why a decoder refused a chunk.
#[derive(Debug)]
pub struct DecodeError {
    pub message: String,
}

/// A single-pass source of raw chunks, one per record.
pub trait Reader {
    /// Appends the next chunk to `buf` and returns the number of bytes
    /// appended. Zero bytes mean that the source has ended.
    fn read(&mut self, buf: &mut Vec<u8>) -> Result<usize, ReadError>;
}

/// Turns one raw chunk into a record, or refuses it.
pub trait Decoder {
    fn decode(&mut self, chunk: &Vec<u8>) -> Result<Record, DecodeError>;
}

/// A boxed reader reads as what is in the box.
impl<T: Reader + ?Sized> Reader for Box<T> {
    fn read(&mut self, buf: &mut Vec<u8>) -> Result<usize, ReadError> {
        (**self).read(buf)
    }
}

/// A boxed decoder decodes as what is in the box.
impl<T: Decoder + ?Sized> Decoder for Box<T> {
    fn decode(&mut self, chunk: &Vec<u8>) -> Result<Record, DecodeError> {
        (**self).decode(chunk)
    }
}

} // verus!
