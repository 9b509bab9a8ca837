//! The wire handler: the receive buffer with its read policy, the delimited,
//! counted and chunked reads made from it, and the bytes of what is sent.
//!
//! The handler never touches the stream. A read of the stream is asked for
//! with [`Handler::begin_read`], lands in [`Handler::read_target`] and is
//! committed with [`Handler::end_read`]; every other function decides on
//! what has been buffered so far and says when more is needed. What is
//! buffered stays within a limit: a stream that fills the buffer without
//! bringing what is looked for is too large an input.

use vstd::prelude::*;
use crate::error::{Error, ParseError, Version};
use crate::head::{write_head, RequestHead};
use crate::init_bytes::{
    bytes_as_slice, bytes_contents, bytes_mut_as_slice, bytes_mut_contents, zeros, InitBytesMut,
};
use crate::number::{format_number, parse_number, parse_unsigned, write_unsigned};
use crate::scan::{delimited_len_from, find, lemma_find_from};
use vstd::slice::slice_subrange;
use crate::strategy::{ReadStrategy, Strategy, INIT_BUFFER_LEN};

verus! {

/// The line ending of the wire format.
pub open spec fn crlf() -> Seq<u8> {
    seq![13u8, 10u8]
}

/// The end of a header block: an empty line after a line.
pub open spec fn header_end() -> Seq<u8> {
    seq![13u8, 10u8, 13u8, 10u8]
}

/// Where a resumed search starts: a delimiter's length before the cursor, so
/// that an occurrence across the last read's boundary is seen.
pub open spec fn scan_start(cursor: int, sep_len: int) -> int {
    if cursor >= sep_len {
        cursor - sep_len
    } else {
        0
    }
}

/// How many bytes a handler buffers at most unless told otherwise.
pub const BUFFER_LIMIT: usize = 1048576;

/// The limit that a handler keeps when it is asked for `limit`: no more
/// than memory can address.
pub open spec fn kept_limit(limit: usize) -> usize {
    if limit <= isize::MAX as usize {
        limit
    } else {
        isize::MAX as usize
    }
}

pub struct Handler {
    read_buf: InitBytesMut,
    read_strategy: Strategy,
    write_buf: Vec<u8>,
    limit: usize,
}

/// Where the read of one chunk stands.
#[derive(Clone, Copy, Debug, PartialEq, Eq, Structural)]
pub enum ChunkRead {
    /// The size line is being looked for; `cursor` is how much of the buffer
    /// has been searched.
    SizeLine { cursor: usize },
    /// The size line said that `len` bytes follow, the payload and its line
    /// ending.
    Payload { len: usize },
}

/// What one look at the buffer gives to the read of a chunk.
pub enum ChunkOutcome {
    /// A whole chunk is there: its payload, and what stays buffered.
    Chunk { payload: Seq<u8>, rest: Seq<u8> },
    /// More is to be read before the chunk is whole.
    NeedRead { state: ChunkRead, rest: Seq<u8> },
    /// The chunk is malformed: its size line writes no length, which is a
    /// parse error, or its payload lacks the line ending, which is invalid
    /// input.
    Invalid { error: Error, rest: Seq<u8> },
}

/// What a size line announces: the payload length that its hexadecimal
/// digits write, and two more bytes for the line ending behind the payload.
pub open spec fn chunk_total(digits: Seq<u8>) -> Option<usize> {
    match parse_number(digits, 16) {
        Some(n) => if n + 2 <= usize::MAX {
            Some((n + 2) as usize)
        } else {
            None
        },
        None => None,
    }
}

/// The read of a chunk once its size line is known.
pub open spec fn payload_step(buffered: Seq<u8>, len: usize) -> ChunkOutcome {
    if buffered.len() < len {
        ChunkOutcome::NeedRead { state: ChunkRead::Payload { len }, rest: buffered }
    } else if len >= 2 && buffered.subrange(len - 2, len as int) == crlf() {
        ChunkOutcome::Chunk { payload: buffered.take(len - 2), rest: buffered.skip(len as int) }
    } else {
        ChunkOutcome::Invalid { error: Error::invalid_input(), rest: buffered.skip(len as int) }
    }
}

/// The read of a chunk: a line of hexadecimal digits, then as many bytes of
/// payload as they write, then a line ending.
pub open spec fn chunk_step(buffered: Seq<u8>, state: ChunkRead) -> ChunkOutcome {
    match state {
        ChunkRead::SizeLine { cursor } => match delimited_len_from(
            buffered,
            crlf(),
            scan_start(cursor as int, 2),
        ) {
            None => ChunkOutcome::NeedRead {
                state: ChunkRead::SizeLine { cursor: buffered.len() as usize },
                rest: buffered,
            },
            Some(at) => match chunk_total(buffered.take(at - 2)) {
                None => ChunkOutcome::Invalid {
                    error: Error::Parse(ParseError::ChunkSize),
                    rest: buffered.skip(at),
                },
                Some(len) => payload_step(buffered.skip(at), len),
            },
        },
        ChunkRead::Payload { len } => payload_step(buffered, len),
    }
}

/// How many bytes a counted read hands out: what is buffered, up to what
/// remains of the body.
pub open spec fn counted_len(remaining: int, buffered: int) -> int {
    if remaining <= buffered {
        remaining
    } else {
        buffered
    }
}

/// The bytes that frame one chunk on the wire: its length in upper-case
/// hexadecimal, a line ending, the payload, a line ending.
pub open spec fn chunk_frame(payload: Seq<u8>) -> Seq<u8> {
    format_number(payload.len(), 16) + crlf() + payload + crlf()
}

impl ChunkRead {
    /// The state in which the read of a chunk starts.
    pub open spec fn start() -> ChunkRead {
        ChunkRead::SizeLine { cursor: 0 }
    }

    /// The state fits a buffer of the given length.
    pub open spec fn fits(self, buffered: int) -> bool {
        match self {
            ChunkRead::SizeLine { cursor } => cursor <= buffered,
            ChunkRead::Payload { len } => len >= 2,
        }
    }
}

/// What one look at the buffer gave.
pub enum Step<T> {
    /// The item is complete.
    Ready(T),
    /// The buffer does not hold the whole item yet: read the stream, then
    /// look again.
    NeedRead,
}

impl Handler {
    /// The buffer is well formed, and what is buffered fits the limit
    /// together with the spare room behind it.
    pub closed spec fn wf(&self) -> bool {
        &&& self.read_buf.wf()
        &&& self.limit <= isize::MAX
        &&& self.read_buf@.len() + self.read_buf.spare().len() <= self.limit
    }

    /// How many bytes are buffered at most.
    pub closed spec fn limit(&self) -> usize {
        self.limit
    }

    /// What is buffered never passes the limit, nor does it with the spare
    /// room behind it.
    pub proof fn lemma_within_limit(&self)
        requires
            self.wf(),
        ensures
            self.buffered().len() + self.spare().len() <= self.limit() <= isize::MAX,
    {
    }

    /// A buffer that has reached its limit refuses the next read: a stream
    /// that never brings what is looked for ends as too large an input.
    pub proof fn lemma_full_buffer_refuses(&self)
        requires
            self.wf(),
            self.buffered().len() >= self.limit(),
        ensures
            !self.can_read(),
    {
    }

    /// The bytes received and not yet handed out.
    pub closed spec fn buffered(&self) -> Seq<u8> {
        self.read_buf@
    }

    /// The room that the next read may fill.
    pub closed spec fn spare(&self) -> Seq<u8> {
        self.read_buf.spare()
    }

    /// The state of the read policy.
    pub closed spec fn strategy(&self) -> Strategy {
        self.read_strategy
    }

    /// The bytes last prepared for sending.
    pub closed spec fn staged(&self) -> Seq<u8> {
        self.write_buf@
    }

    /// A handler with nothing buffered that buffers [`BUFFER_LIMIT`] bytes
    /// at most.
    pub fn new(read_strategy: ReadStrategy) -> (h: Self)
        ensures
            h.wf(),
            h.buffered() == Seq::<u8>::empty(),
            h.spare() == Seq::<u8>::empty(),
            h.strategy() == read_strategy.spec_state(),
            h.staged() == Seq::<u8>::empty(),
            h.limit() == BUFFER_LIMIT,
    {
        Handler::with_limit(read_strategy.state(), BUFFER_LIMIT)
    }

    /// A handler whose read policy is in the given state.
    pub fn with_strategy(read_strategy: Strategy) -> (h: Self)
        ensures
            h.wf(),
            h.buffered() == Seq::<u8>::empty(),
            h.spare() == Seq::<u8>::empty(),
            h.strategy() == read_strategy,
            h.staged() == Seq::<u8>::empty(),
            h.limit() == BUFFER_LIMIT,
    {
        Handler::with_limit(read_strategy, BUFFER_LIMIT)
    }

    /// A handler whose read policy is in the given state and that buffers
    /// `limit` bytes at most.
    pub fn with_limit(read_strategy: Strategy, limit: usize) -> (h: Self)
        ensures
            h.wf(),
            h.buffered() == Seq::<u8>::empty(),
            h.spare() == Seq::<u8>::empty(),
            h.strategy() == read_strategy,
            h.staged() == Seq::<u8>::empty(),
            h.limit() == kept_limit(limit),
    {
        let top: usize = isize::MAX as usize;
        Handler {
            read_buf: InitBytesMut::new(),
            read_strategy,
            write_buf: Vec::with_capacity(INIT_BUFFER_LEN),
            limit: if limit <= top { limit } else { top },
        }
    }

    /// How many bytes are buffered at most.
    pub fn buffer_limit(&self) -> (n: usize)
        ensures
            n == self.limit(),
    {
        self.limit
    }

    /// The state of the read policy.
    pub fn read_strategy(&self) -> (s: Strategy)
        ensures
            s == self.strategy(),
    {
        self.read_strategy
    }

    /// The number of bytes received and not yet handed out.
    pub fn buffered_len(&self) -> (n: usize)
        requires
            self.wf(),
        ensures
            n == self.buffered().len(),
    {
        self.read_buf.len()
    }

    /// How many bytes the next read asks for: what the policy asks for, as
    /// far as the limit leaves room behind what is buffered.
    pub open spec fn wanted(&self) -> int {
        let left = self.limit() - self.buffered().len();
        if self.strategy().spec_next() <= left {
            self.strategy().spec_next() as int
        } else {
            left
        }
    }

    /// The spare room after [`begin_read`](Self::begin_read): as it is when
    /// it covers what the read asks for, else that many zero bytes.
    pub open spec fn prepared_room(&self) -> Seq<u8> {
        if self.spare().len() >= self.wanted() {
            self.spare()
        } else {
            zeros(self.wanted() as nat)
        }
    }

    /// Whether a read can be prepared: there is room to read into. There is
    /// none when the policy asks for nothing or the buffer has reached its
    /// limit, unless spare room is left from before.
    pub open spec fn can_read(&self) -> bool {
        self.spare().len() > 0 || self.wanted() > 0
    }

    /// Prepares the spare room for the next read of the stream. With no room
    /// to read into the input is too large.
    pub fn begin_read(&mut self) -> (r: Result<(), Error>)
        requires
            old(self).wf(),
        ensures
            final(self).wf(),
            final(self).buffered() == old(self).buffered(),
            final(self).strategy() == old(self).strategy(),
            final(self).staged() == old(self).staged(),
            final(self).limit() == old(self).limit(),
            r is Ok <==> old(self).can_read(),
            r is Err ==> r == Err::<(), Error>(Error::TooLargeInput) && final(self).spare() == old(
                self,
            ).spare(),
            r is Ok ==> final(self).spare() == old(self).prepared_room(),
            r is Ok ==> final(self).spare().len() > 0,
    {
        let next = self.read_strategy.next();
        let len = self.read_buf.len();
        let spare = self.read_buf.spare_capacity_len();
        let left: usize = self.limit - len;
        let want: usize = if next <= left { next } else { left };
        if spare < want {
            self.read_buf.reserve(want);
        }
        if self.read_buf.spare_capacity_len() == 0 {
            return Err(Error::TooLargeInput);
        }
        Ok(())
    }

    /// The room that the read of the stream writes into, from its start.
    pub fn read_target(&mut self) -> (s: &mut [u8])
        requires
            old(self).wf(),
        ensures
            s@ == old(self).spare(),
            final(self).wf(),
            final(self).spare() == final(s)@,
            final(self).buffered() == old(self).buffered(),
            final(self).strategy() == old(self).strategy(),
            final(self).staged() == old(self).staged(),
            final(self).limit() == old(self).limit(),
    {
        self.read_buf.spare_capacity_mut()
    }

    /// Commits a read of the stream that wrote `n` bytes to the start of the
    /// spare room, and lets the read policy know. A read of nothing is the
    /// end of the stream, which comes unexpected.
    pub fn end_read(&mut self, n: usize) -> (r: Result<(), Error>)
        requires
            old(self).wf(),
            n <= old(self).spare().len(),
        ensures
            final(self).wf(),
            final(self).buffered() == old(self).buffered() + old(self).spare().take(n as int),
            final(self).spare() == old(self).spare().skip(n as int),
            final(self).strategy() == old(self).strategy().spec_record(n),
            final(self).staged() == old(self).staged(),
            final(self).limit() == old(self).limit(),
            r == if n == 0 {
                Err::<(), Error>(Error::unexpected_eof_spec())
            } else {
                Ok::<(), Error>(())
            },
    {
        self.read_buf.advance(n);
        self.read_strategy.record(n);
        if n == 0 {
            Err(Error::unexpected_eof())
        } else {
            Ok(())
        }
    }

    /// Looks for `sep` in what is buffered, from a delimiter's length before
    /// `cursor`. Where it is found, the buffer's start up to and including
    /// it is handed out. Where not, the cursor moves to the buffer's end and
    /// more is to be read.
    pub fn read_until(&mut self, sep: &[u8], cursor: &mut usize) -> (out: Step<::bytes::Bytes>)
        requires
            old(self).wf(),
            sep@.len() > 0,
            *old(cursor) <= old(self).buffered().len(),
        ensures
            final(self).wf(),
            final(self).spare() == old(self).spare(),
            final(self).strategy() == old(self).strategy(),
            final(self).staged() == old(self).staged(),
            final(self).limit() == old(self).limit(),
            match delimited_len_from(
                old(self).buffered(),
                sep@,
                scan_start(*old(cursor) as int, sep@.len() as int),
            ) {
                Some(at) => {
                    &&& out matches Step::Ready(b)
                    &&& bytes_contents(b) == old(self).buffered().take(at)
                    &&& final(self).buffered() == old(self).buffered().skip(at)
                    &&& *final(cursor) == *old(cursor)
                },
                None => {
                    &&& out is NeedRead
                    &&& final(self).buffered() == old(self).buffered()
                    &&& *final(cursor) == old(self).buffered().len()
                },
            },
    {
        let start: usize = if *cursor >= sep.len() { *cursor - sep.len() } else { 0 };
        let found = find(self.read_buf.as_slice(), sep, start);
        match found {
            Some(n) => {
                proof {
                    lemma_find_from(old(self).buffered(), sep@, start as int);
                    self.read_buf.lemma_len_bound();
                }
                let at: usize = n + sep.len();
                Step::Ready(self.read_buf.split_to(at).freeze())
            },
            None => {
                *cursor = self.read_buf.len();
                Step::NeedRead
            },
        }
    }

    /// Looks for the end of a header block: see [`read_until`](Self::read_until).
    pub fn read_header(&mut self, cursor: &mut usize) -> (out: Step<::bytes::Bytes>)
        requires
            old(self).wf(),
            *old(cursor) <= old(self).buffered().len(),
        ensures
            final(self).wf(),
            final(self).spare() == old(self).spare(),
            final(self).strategy() == old(self).strategy(),
            final(self).staged() == old(self).staged(),
            final(self).limit() == old(self).limit(),
            match delimited_len_from(
                old(self).buffered(),
                header_end(),
                scan_start(*old(cursor) as int, 4),
            ) {
                Some(at) => {
                    &&& out matches Step::Ready(b)
                    &&& bytes_contents(b) == old(self).buffered().take(at)
                    &&& final(self).buffered() == old(self).buffered().skip(at)
                    &&& *final(cursor) == *old(cursor)
                },
                None => {
                    &&& out is NeedRead
                    &&& final(self).buffered() == old(self).buffered()
                    &&& *final(cursor) == old(self).buffered().len()
                },
            },
    {
        let sep: [u8; 4] = [13, 10, 13, 10];
        assert(sep@ =~= header_end());
        self.read_until(sep.as_slice(), cursor)
    }

    /// Hands out what is buffered of a body of which `remaining` bytes are
    /// still to come, and counts it off. With nothing buffered more is to be
    /// read; with nothing remaining the result is empty.
    pub fn read_body(&mut self, remaining: &mut usize) -> (out: Step<::bytes::Bytes>)
        requires
            old(self).wf(),
        ensures
            final(self).wf(),
            final(self).spare() == old(self).spare(),
            final(self).strategy() == old(self).strategy(),
            final(self).staged() == old(self).staged(),
            final(self).limit() == old(self).limit(),
            *old(remaining) > 0 && old(self).buffered().len() == 0 ==> {
                &&& out is NeedRead
                &&& final(self).buffered() == old(self).buffered()
                &&& *final(remaining) == *old(remaining)
            },
            *old(remaining) == 0 || old(self).buffered().len() > 0 ==> {
                let k = counted_len(*old(remaining) as int, old(self).buffered().len() as int);
                &&& out matches Step::Ready(b)
                &&& bytes_contents(b) == old(self).buffered().take(k)
                &&& final(self).buffered() == old(self).buffered().skip(k)
                &&& *final(remaining) == *old(remaining) - k
            },
    {
        if *remaining == 0 {
            let out = ::bytes::Bytes::new();
            assert(self.buffered().take(0) =~= Seq::<u8>::empty());
            assert(self.buffered().skip(0) =~= self.buffered());
            return Step::Ready(out);
        }
        if self.read_buf.is_empty() {
            return Step::NeedRead;
        }
        let len = self.read_buf.len();
        let chunk_len: usize = if *remaining <= len { *remaining } else { len };
        let chunk = self.read_buf.split_to(chunk_len).freeze();
        *remaining = *remaining - chunk_len;
        Step::Ready(chunk)
    }

    /// The payload of a chunk whose size line said `len`, once `len` bytes
    /// are buffered.
    fn read_payload(&mut self, len: usize, state: &mut ChunkRead) -> (out: Result<
        Step<::bytes::Bytes>,
        Error,
    >)
        requires
            old(self).wf(),
        ensures
            final(self).wf(),
            final(self).spare() == old(self).spare(),
            final(self).strategy() == old(self).strategy(),
            final(self).staged() == old(self).staged(),
            final(self).limit() == old(self).limit(),
            match payload_step(old(self).buffered(), len) {
                ChunkOutcome::Chunk { payload, rest } => {
                    &&& out matches Ok(Step::Ready(b))
                    &&& bytes_contents(b) == payload
                    &&& final(self).buffered() == rest
                    &&& *final(state) == ChunkRead::start()
                },
                ChunkOutcome::NeedRead { state: s, rest } => {
                    &&& out matches Ok(Step::NeedRead)
                    &&& final(self).buffered() == rest
                    &&& *final(state) == s
                },
                ChunkOutcome::Invalid { error, rest } => {
                    &&& out matches Err(e)
                    &&& e == error
                    &&& final(self).buffered() == rest
                    &&& *final(state) == ChunkRead::start()
                },
            },
    {
        if self.read_buf.len() < len {
            *state = ChunkRead::Payload { len };
            return Ok(Step::NeedRead);
        }
        let mut chunk = self.read_buf.split_to(len);
        *state = ChunkRead::SizeLine { cursor: 0 };
        if len < 2 {
            return Err(Error::invalid_input());
        }
        let bytes = bytes_mut_as_slice(&chunk);
        if bytes[len - 2] == 13 && bytes[len - 1] == 10 {
            assert(old(self).buffered().subrange(len - 2, len as int) =~= crlf());
            chunk.truncate(len - 2);
            assert(bytes_mut_contents(chunk) =~= old(self).buffered().take(len - 2));
            Ok(Step::Ready(chunk.freeze()))
        } else {
            assert(old(self).buffered().subrange(len - 2, len as int)[0] == bytes@[len - 2]);
            assert(old(self).buffered().subrange(len - 2, len as int)[1] == bytes@[len - 1]);
            Err(Error::invalid_input())
        }
    }

    /// Goes on with the read of one chunk: see [`chunk_step`]. An empty
    /// chunk is the last one.
    pub fn read_chunk(&mut self, state: &mut ChunkRead) -> (out: Result<
        Step<::bytes::Bytes>,
        Error,
    >)
        requires
            old(self).wf(),
            old(state).fits(old(self).buffered().len() as int),
        ensures
            final(self).wf(),
            final(self).spare() == old(self).spare(),
            final(self).strategy() == old(self).strategy(),
            final(self).staged() == old(self).staged(),
            final(self).limit() == old(self).limit(),
            final(state).fits(final(self).buffered().len() as int),
            match chunk_step(old(self).buffered(), *old(state)) {
                ChunkOutcome::Chunk { payload, rest } => {
                    &&& out matches Ok(Step::Ready(b))
                    &&& bytes_contents(b) == payload
                    &&& final(self).buffered() == rest
                    &&& *final(state) == ChunkRead::start()
                },
                ChunkOutcome::NeedRead { state: s, rest } => {
                    &&& out matches Ok(Step::NeedRead)
                    &&& final(self).buffered() == rest
                    &&& *final(state) == s
                },
                ChunkOutcome::Invalid { error, rest } => {
                    &&& out matches Err(e)
                    &&& e == error
                    &&& final(self).buffered() == rest
                    &&& *final(state) == ChunkRead::start()
                },
            },
    {
        match *state {
            ChunkRead::SizeLine { cursor } => {
                let sep: [u8; 2] = [13, 10];
                assert(sep@ =~= crlf());
                let mut cursor = cursor;
                match self.read_until(sep.as_slice(), &mut cursor) {
                    Step::NeedRead => {
                        *state = ChunkRead::SizeLine { cursor };
                        Ok(Step::NeedRead)
                    },
                    Step::Ready(line) => {
                        let bytes = bytes_as_slice(&line);
                        proof {
                            lemma_find_from(
                                old(self).buffered(),
                                crlf(),
                                scan_start(cursor as int, 2),
                            );
                        }
                        let digits = slice_subrange(bytes, 0, bytes.len() - 2);
                        assert(digits@ =~= old(self).buffered().take(bytes@.len() - 2));
                        match parse_unsigned(digits, 16) {
                            None => {
                                *state = ChunkRead::SizeLine { cursor: 0 };
                                Err(Error::Parse(ParseError::ChunkSize))
                            },
                            Some(n) => {
                                if n > usize::MAX - 2 {
                                    *state = ChunkRead::SizeLine { cursor: 0 };
                                    Err(Error::Parse(ParseError::ChunkSize))
                                } else {
                                    self.read_payload(n + 2, state)
                                }
                            },
                        }
                    },
                }
            },
            ChunkRead::Payload { len } => self.read_payload(len, state),
        }
    }

    /// Stages the bytes of a request head, which speaks HTTP/1.1, and gives
    /// them to be written.
    pub fn write_header(&mut self, req: &RequestHead) -> (out: &[u8])
        requires
            old(self).wf(),
            req.version == Version::Http11,
        ensures
            final(self).wf(),
            final(self).buffered() == old(self).buffered(),
            final(self).spare() == old(self).spare(),
            final(self).strategy() == old(self).strategy(),
            final(self).limit() == old(self).limit(),
            final(self).staged() == req.wire(),
            out@ == req.wire(),
    {
        self.write_buf.clear();
        write_head(&mut self.write_buf, req);
        assert(self.write_buf@ =~= req.wire());
        self.write_buf.as_slice()
    }

    /// Stages the size line of a chunk and gives the three pieces that
    /// frame it, to be written in this order: the size line, the payload,
    /// the line ending. An empty chunk ends the body.
    pub fn write_chunk<'a>(&'a mut self, chunk: &'a [u8]) -> (out: (&'a [u8], &'a [u8], &'static [u8]))
        requires
            old(self).wf(),
        ensures
            final(self).wf(),
            final(self).buffered() == old(self).buffered(),
            final(self).spare() == old(self).spare(),
            final(self).strategy() == old(self).strategy(),
            final(self).limit() == old(self).limit(),
            final(self).staged() == format_number(chunk@.len(), 16) + crlf(),
            out.0@ == final(self).staged(),
            out.1@ == chunk@,
            out.2@ == crlf(),
            out.0@ + out.1@ + out.2@ == chunk_frame(chunk@),
    {
        self.write_buf.clear();
        write_unsigned(&mut self.write_buf, chunk.len(), 16);
        self.write_buf.push(13);
        self.write_buf.push(10);
        assert(self.write_buf@ =~= format_number(chunk@.len(), 16) + crlf());
        let tail: &'static [u8] = &[13, 10];
        assert(tail@ =~= crlf());
        (self.write_buf.as_slice(), chunk, tail)
    }
}

} // verus!
