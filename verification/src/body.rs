//! The body of a message: its kind and size hint, the body that is one
//! buffer, and the reader that turns a body's chunks into a byte stream.

use vstd::prelude::*;
use crate::error::Error;
use crate::init_bytes::{bytes_as_slice, bytes_contents};

verus! {

/// How a body is framed on the wire.
#[derive(Clone, Copy, Debug, PartialEq, Eq, Structural)]
pub enum Kind {
    /// There is no body.
    Empty,
    /// The body is one chunk, sent with its length.
    Full,
    /// The body is any number of chunks, sent in the chunked coding.
    Chunked,
}

/// What a body says of its kind and size before it is read.
#[derive(Clone, Copy, Debug, PartialEq, Eq, Structural)]
pub enum Hint {
    /// The body is empty.
    Empty,
    /// The whole body comes in one chunk, of `len` bytes where that is
    /// known.
    Full { len: Option<u64> },
    /// The body comes in chunks; `end` says that none is left.
    Chunked { end: bool },
}

impl Hint {
    pub fn is_empty(&self) -> (r: bool)
        ensures
            r == (*self is Empty),
    {
        match self {
            Hint::Empty => true,
            _ => false,
        }
    }

    pub fn is_full(&self) -> (r: bool)
        ensures
            r == (*self is Full),
    {
        match self {
            Hint::Full { .. } => true,
            _ => false,
        }
    }

    pub fn is_chunked(&self) -> (r: bool)
        ensures
            r == (*self is Chunked),
    {
        match self {
            Hint::Chunked { .. } => true,
            _ => false,
        }
    }

    /// Whether the body has nothing more to give.
    pub open spec fn spec_end(self) -> bool {
        match self {
            Hint::Empty => true,
            Hint::Full { len } => len == Some(0u64),
            Hint::Chunked { end } => end,
        }
    }

    #[verifier::when_used_as_spec(spec_end)]
    pub fn end(self) -> (r: bool)
        ensures
            r == self.spec_end(),
    {
        match self {
            Hint::Empty => true,
            Hint::Full { len } => match len {
                Some(n) => n == 0,
                None => false,
            },
            Hint::Chunked { end } => end,
        }
    }

    /// The hint of a body that is one buffer: full, with the bytes that the
    /// buffer still holds, none once it has been given.
    pub fn of_buffer(remaining: Option<usize>) -> (h: Hint)
        ensures
            h == (Hint::Full {
                len: Some(
                    match remaining {
                        Some(n) => n as u64,
                        None => 0u64,
                    },
                ),
            }),
    {
        let len: u64 = match remaining {
            Some(n) => n as u64,
            None => 0,
        };
        Hint::Full { len: Some(len) }
    }

    /// The hint of a body that is one buffer yet to come: full, of unknown
    /// length while it is awaited, and empty once it has been given.
    pub fn of_deferred(given: bool) -> (h: Hint)
        ensures
            h == (Hint::Full {
                len: if given {
                    Some(0u64)
                } else {
                    None
                },
            }),
            h.spec_end() == given,
    {
        Hint::Full { len: if given { Some(0) } else { None } }
    }

    /// The hint of a body that is a stream of chunks, of which at most
    /// `upper_bound` are left where that is known: chunked, and at its end
    /// when none is left.
    pub fn of_stream(upper_bound: Option<usize>) -> (h: Hint)
        ensures
            h == (Hint::Chunked { end: upper_bound == Some(0usize) }),
    {
        let end = match upper_bound {
            Some(n) => n == 0,
            None => false,
        };
        Hint::Chunked { end }
    }

    /// The framing that goes with the hint.
    pub fn kind(self) -> (k: Kind)
        ensures
            k == match self {
                Hint::Empty => Kind::Empty,
                Hint::Full { .. } => Kind::Full,
                Hint::Chunked { .. } => Kind::Chunked,
            },
    {
        match self {
            Hint::Empty => Kind::Empty,
            Hint::Full { .. } => Kind::Full,
            Hint::Chunked { .. } => Kind::Chunked,
        }
    }
}

/// A body that is one buffer: it gives the buffer once, then nothing.
pub struct Full<B>(pub Option<B>);

impl<B> Full<B> {
    pub fn new(body: B) -> (f: Self)
        ensures
            f.0 == Some(body),
    {
        Full(Some(body))
    }

    /// Gives the buffer the first time, nothing from then on.
    pub fn chunk(&mut self) -> (c: Option<B>)
        ensures
            c == old(self).0,
            final(self).0 is None,
    {
        self.0.take()
    }

    /// Whether the buffer has been given.
    pub fn is_end(&self) -> (r: bool)
        ensures
            r == (self.0 is None),
    {
        self.0.is_none()
    }

    /// The framing of such a body.
    pub fn kind(&self) -> (k: Kind)
        ensures
            k == Kind::Full,
    {
        Kind::Full
    }
}

/// The one chunk of a body that says it is full, from what its read gave:
/// the chunk, nothing for an empty body, or the failure of the read.
pub fn take_full<C>(size: Hint, chunk: Option<Result<C, Error>>) -> (r: Result<Option<C>, Error>)
    requires
        size is Full,
    ensures
        r == match chunk {
            Some(Ok(c)) => Ok::<Option<C>, Error>(Some(c)),
            Some(Err(e)) => Err(e),
            None => Ok(None),
        },
{
    match chunk {
        Some(Ok(c)) => Ok(Some(c)),
        Some(Err(e)) => Err(e),
        None => Ok(None),
    }
}

/// Where a reader of a body stands.
pub enum ReadState {
    /// No chunk has been asked for yet.
    Start,
    /// What is left of the current chunk.
    Next(::bytes::Bytes),
    /// The body has ended.
    End,
}

/// What the body answers when it is asked for its next chunk.
pub enum Polled {
    /// It has nothing to say yet.
    Pending,
    /// It has ended.
    Ended,
    /// It failed.
    Failed(Error),
    /// It gives this chunk.
    Chunk(::bytes::Bytes),
}

/// What a read from the reader comes to.
#[derive(Clone, Copy, Debug, PartialEq, Eq, Structural)]
pub enum ReadOutcome {
    /// This many bytes were copied; none at the body's end or into no room.
    Read(usize),
    /// The body failed.
    Failed(Error),
    /// Nothing can be said yet: wait for the body.
    Pending,
    /// The body gave an empty chunk: ask it again at once.
    Again,
}

/// A reader that turns the chunks of a body into a stream of bytes.
pub struct Reader {
    state: ReadState,
}

/// The smaller of two lengths.
pub open spec fn min_len(a: int, b: int) -> int {
    if a <= b {
        a
    } else {
        b
    }
}

impl Reader {
    /// The bytes of the current chunk that have not been read.
    pub closed spec fn remaining(&self) -> Seq<u8> {
        match self.state {
            ReadState::Next(b) => bytes_contents(b),
            _ => Seq::<u8>::empty(),
        }
    }

    /// Whether the body has ended.
    pub closed spec fn ended(&self) -> bool {
        self.state is End
    }

    pub fn new() -> (r: Self)
        ensures
            !r.ended(),
            r.remaining() == Seq::<u8>::empty(),
    {
        Reader { state: ReadState::Start }
    }

    /// Whether a read into `room` bytes has to ask the body for a chunk
    /// first: not at the body's end, not for no room, not while the current
    /// chunk has bytes left.
    pub fn wants_chunk(&self, room: usize) -> (w: bool)
        ensures
            w == (!self.ended() && room > 0 && self.remaining().len() == 0),
    {
        match &self.state {
            ReadState::End => false,
            ReadState::Start => room > 0,
            ReadState::Next(b) => room > 0 && b.len() == 0,
        }
    }

    /// Takes what the body answered. A chunk with bytes becomes the current
    /// chunk and the read goes on; every other answer settles the read.
    pub fn accept(&mut self, polled: Polled) -> (out: Option<ReadOutcome>)
        requires
            !old(self).ended(),
            old(self).remaining().len() == 0,
        ensures
            match polled {
                Polled::Chunk(c) => if bytes_contents(c).len() > 0 {
                    out is None && !final(self).ended() && final(self).remaining()
                        == bytes_contents(c)
                } else {
                    &&& out == Some(ReadOutcome::Again)
                    &&& !final(self).ended()
                    &&& final(self).remaining().len() == 0
                },
                Polled::Failed(e) => out == Some(ReadOutcome::Failed(e)) && !final(self).ended()
                    && final(self).remaining().len() == 0,
                Polled::Ended => out == Some(ReadOutcome::Read(0)) && final(self).ended(),
                Polled::Pending => out == Some(ReadOutcome::Pending) && !final(self).ended()
                    && final(self).remaining().len() == 0,
            },
    {
        match polled {
            Polled::Chunk(c) => {
                if c.len() > 0 {
                    self.state = ReadState::Next(c);
                    None
                } else {
                    Some(ReadOutcome::Again)
                }
            },
            Polled::Failed(e) => Some(ReadOutcome::Failed(e)),
            Polled::Ended => {
                self.state = ReadState::End;
                Some(ReadOutcome::Read(0))
            },
            Polled::Pending => Some(ReadOutcome::Pending),
        }
    }

    /// Copies from the current chunk to the start of `buf`, as much as there
    /// is and fits.
    pub fn read(&mut self, buf: &mut [u8]) -> (out: ReadOutcome)
        ensures
            final(self).ended() == old(self).ended(),
            final(buf)@.len() == old(buf)@.len(),
            ({
                let n = min_len(old(self).remaining().len() as int, old(buf)@.len() as int);
                &&& out == ReadOutcome::Read(n as usize)
                &&& final(buf)@ == old(self).remaining().take(n) + old(buf)@.skip(n)
                &&& final(self).remaining() == old(self).remaining().skip(n)
            }),
    {
        match &mut self.state {
            ReadState::Next(b) => {
                let have = b.len();
                let room = buf.len();
                let n: usize = if have <= room { have } else { room };
                let src = bytes_as_slice(b);
                let mut i: usize = 0;
                while i < n
                    invariant
                        i <= n <= src@.len(),
                        n <= buf@.len(),
                        buf@.len() == old(buf)@.len(),
                        buf@ == src@.take(i as int) + old(buf)@.skip(i as int),
                    decreases n - i,
                {
                    buf[i] = src[i];
                    assert(buf@ =~= src@.take(i + 1) + old(buf)@.skip(i + 1));
                    i = i + 1;
                }
                let _ = b.split_to(n);
                ReadOutcome::Read(n)
            },
            _ => {
                assert(old(buf)@.skip(0) =~= old(buf)@);
                assert(Seq::<u8>::empty().take(0) + old(buf)@ =~= old(buf)@);
                assert(Seq::<u8>::empty().skip(0) =~= Seq::<u8>::empty());
                ReadOutcome::Read(0)
            },
        }
    }
}

} // verus!
