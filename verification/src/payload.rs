//! A payload of plain bytes behind a header that tells its kind.

use vstd::prelude::*;

use crate::log_batch::Payload;

verus! {

/// Size of the header in bytes.
pub const HEADER_SIZE: usize = 1;

/// What can go wrong when a payload is written. A buffer that grows as a
/// `Vec` does runs into neither.
#[derive(Debug, Clone, Copy, PartialEq, Eq, Structural)]
pub enum Error {
    WriteHeader,
    WriteBody,
}

/// Header of a log entry: the kind of the entry.
#[derive(Debug, Clone, Copy, PartialEq, Eq, Structural)]
pub enum Header {
    Write,
}

impl Header {
    /// The byte that stands for this header.
    pub open spec fn byte(self) -> u8 {
        match self {
            Header::Write => 1,
        }
    }

    #[verifier::when_used_as_spec(byte)]
    pub fn to_u8(self) -> (b: u8)
        ensures
            b == self.byte(),
    {
        match self {
            Header::Write => 1,
        }
    }
}

/// Appends the byte of `header` to `buf`.
pub fn write_header(header: Header, buf: &mut Vec<u8>) -> (r: Result<(), Error>)
    ensures
        r is Ok,
        final(buf)@ == old(buf)@.push(header.byte()),
{
    buf.push(header.to_u8());
    Ok(())
}

/// The bytes of a write, to be stored behind the header of a write.
#[derive(Debug)]
pub struct WritePayload<'a>(pub &'a [u8]);

impl<'a> WritePayload<'a> {
    /// The payload of the bytes of `data`.
    pub fn from(data: &'a Vec<u8>) -> (payload: Self)
        ensures
            payload.0@ == data@,
    {
        WritePayload(data.as_slice())
    }
}

impl<'a> Payload for WritePayload<'a> {
    type Error = Error;

    open spec fn encoded(&self) -> Seq<u8> {
        seq![Header::Write.byte()] + self.0@
    }

    fn encode_size(&self) -> (n: usize) {
        let body_size = self.0.len();
        HEADER_SIZE + body_size
    }

    fn encode_to(&self, buf: &mut Vec<u8>) -> (r: Result<(), Error>)
        ensures
            r is Ok,
    {
        match write_header(Header::Write, buf) {
            Ok(()) => {},
            Err(e) => {
                return Err(e);
            },
        }
        let mut i: usize = 0;
        while i < self.0.len()
            invariant
                i <= self.0@.len(),
                buf@ == old(buf)@.push(Header::Write.byte()) + self.0@.take(i as int),
            decreases self.0@.len() - i,
        {
            buf.push(self.0[i]);
            proof {
                assert(self.0@.take(i + 1) =~= self.0@.take(i as int).push(self.0@[i as int]));
                assert(buf@ =~= old(buf)@.push(Header::Write.byte()) + self.0@.take(i + 1));
            }
            i += 1;
        }
        proof {
            assert(self.0@.take(self.0@.len() as int) =~= self.0@);
            assert(buf@ =~= old(buf)@ + self.encoded());
        }
        Ok(())
    }
}

} // verus!
