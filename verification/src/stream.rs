//! Byte streams held in memory: the input a program reads and the output it writes.

use crate::error::IoError;
use vstd::prelude::*;

verus! {

/// A source of bytes: a buffer and a reading position.
#[derive(Debug)]
pub struct InputStream {
    data: Vec<u8>,
    pos: usize,
}

impl View for InputStream {
    type V = Seq<u8>;

    /// The bytes not read yet.
    closed spec fn view(&self) -> Seq<u8> {
        self.data@.skip(self.pos as int)
    }
}

impl InputStream {
    #[verifier::type_invariant]
    spec fn position_in_data(&self) -> bool {
        self.pos <= self.data@.len()
    }

    /// A stream that will deliver `data` from its first byte on.
    pub fn new(data: Vec<u8>) -> (stream: Self)
        ensures
            stream@ == data@,
    {
        let stream = InputStream { data, pos: 0 };
        assert(stream@ =~= data@);
        stream
    }

    /// The number of bytes not read yet.
    pub fn remaining(&self) -> (n: usize)
        ensures
            n == self@.len(),
    {
        proof {
            use_type_invariant(self);
        }
        self.data.len() - self.pos
    }

    /// Takes the next byte off the stream, or returns `None` and leaves the
    /// stream as it was where it is exhausted.
    pub fn read_byte(&mut self) -> (byte: Option<u8>)
        ensures
            old(self)@.len() > 0 ==> byte == Some(old(self)@[0]) && final(self)@ == old(self)@.drop_first(),
            old(self)@.len() == 0 ==> byte.is_none() && final(self)@ == old(self)@,
    {
        proof {
            use_type_invariant(&*self);
        }
        if self.pos < self.data.len() {
            let byte = self.data[self.pos];
            assert(self.data@.skip(self.pos as int).drop_first() =~= self.data@.skip(
                self.pos as int + 1,
            ));
            self.pos = self.pos + 1;
            Some(byte)
        } else {
            None
        }
    }
}

impl Clone for InputStream {
    /// A copy that will deliver the same bytes.
    fn clone(&self) -> (stream: Self)
        ensures
            stream@ == self@,
    {
        proof {
            use_type_invariant(self);
        }
        let data = self.data.clone();
        assert(data@ =~= self.data@);
        InputStream { data, pos: self.pos }
    }
}

/// What an output stream holds, as a mathematical value.
pub struct SinkState {
    /// The bytes written so far, in order.
    pub written: Seq<u8>,
    /// The number of bytes the stream accepts in all.
    pub limit: nat,
}

impl SinkState {
    /// Whether the stream accepts one more byte.
    pub open spec fn has_room(self) -> bool {
        self.written.len() < self.limit
    }

    /// The stream after it accepted `byte`.
    pub open spec fn push(self, byte: u8) -> SinkState {
        SinkState { written: self.written.push(byte), limit: self.limit }
    }
}

/// A sink of bytes: a buffer that grows up to a limit fixed at construction.
#[derive(Debug)]
pub struct OutputStream {
    bytes: Vec<u8>,
    limit: usize,
}

impl View for OutputStream {
    type V = SinkState;

    closed spec fn view(&self) -> SinkState {
        SinkState { written: self.bytes@, limit: self.limit as nat }
    }
}

impl OutputStream {
    /// An empty stream that accepts as many bytes as a buffer can hold.
    pub fn new() -> (stream: Self)
        ensures
            stream@ == (SinkState { written: Seq::empty(), limit: usize::MAX as nat }),
    {
        OutputStream { bytes: Vec::new(), limit: usize::MAX }
    }

    /// An empty stream that accepts `limit` bytes and refuses the next.
    pub fn with_limit(limit: usize) -> (stream: Self)
        ensures
            stream@ == (SinkState { written: Seq::empty(), limit: limit as nat }),
    {
        OutputStream { bytes: Vec::new(), limit }
    }

    /// Appends `byte`, or fails and leaves the stream as it was where the
    /// stream is full.
    pub fn write_byte(&mut self, byte: u8) -> (r: Result<(), IoError>)
        ensures
            old(self)@.has_room() ==> r == Ok::<(), IoError>(()) && final(self)@ == old(self)@.push(byte),
            !old(self)@.has_room() ==> r == Err::<(), IoError>(IoError::WriteZero) && final(self)@ == old(self)@,
    {
        if self.bytes.len() < self.limit {
            self.bytes.push(byte);
            Ok(())
        } else {
            Err(IoError::WriteZero)
        }
    }

    /// The bytes written so far.
    pub fn as_slice(&self) -> (bytes: &[u8])
        ensures
            bytes@ == self@.written,
    {
        self.bytes.as_slice()
    }

    /// Gives up the stream for the bytes written to it.
    pub fn into_bytes(self) -> (bytes: Vec<u8>)
        ensures
            bytes@ == self@.written,
    {
        self.bytes
    }
}

impl Clone for OutputStream {
    /// A copy with the same bytes and the same limit.
    fn clone(&self) -> (stream: Self)
        ensures
            stream@ == self@,
    {
        let bytes = self.bytes.clone();
        assert(bytes@ =~= self.bytes@);
        OutputStream { bytes, limit: self.limit }
    }
}

} // verus!
