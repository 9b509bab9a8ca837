//! One connection: how a request is framed and sent, how the response head
//! decides the framing of its body, and how the body is cut into frames.
//!
//! The connection owns the buffers and the parser. Whoever owns the stream
//! and the queues writes what [`Connection::send_full`],
//! [`Connection::send_chunked`] and [`Connection::send_chunk`] give, reads
//! the stream when a step answers [`Step::NeedRead`], and passes on what
//! [`Connection::read_head`] and [`Connection::read_frame`] hand out.

use vstd::prelude::*;
use crate::body::Kind;
use crate::error::{Error, IoErrorKind, ParseError, Version};
use crate::handler::{
    chunk_frame, chunk_step, counted_len, crlf, header_end, kept_limit, scan_start, ChunkOutcome,
    ChunkRead, Handler, Step, BUFFER_LIMIT,
};
use crate::init_bytes::zeros;
use crate::head::{head_bytes, RequestHead, ResponseHead, ResponseHeadView};
use crate::header_map::{
    first_value, header_entries, header_get, header_insert, header_remove, inserted,
    is_field_value, is_map, is_value_byte, lemma_entry_index, lemma_inserted, lemma_removed,
    lower, removed, Entry, MAX_ENTRIES,
};
use crate::headers::{
    chunked_in, chunked_inserted, chunked_removed, content_len_of, content_length,
    content_length_name, has_chunked_encoding, insert_chunked_encoding, lemma_chunked_inserted,
    lemma_chunked_removed, lemma_names_differ, parse_content_len, remove_chunked_encoding,
    ContentLen,
};
use crate::init_bytes::bytes_contents;
use crate::number::{
    digit_value, format_number, lemma_format_number, lemma_parse_format, write_unsigned,
};
use crate::parser::{head_of, many_fields, Parser};
use crate::response_scan::{scanned_response, MAX_SLOTS};
use crate::scan::delimited_len_from;
use crate::strategy::{ReadStrategy, Strategy};

verus! {

/// What a connection is set up with.
#[derive(Clone, Copy, Debug)]
pub struct Config {
    parser: Parser,
    read_strategy: ReadStrategy,
    buffer_limit: usize,
}

/// How the body of a response is framed, and how far its read has come.
#[derive(Clone, Copy, Debug, PartialEq, Eq, Structural)]
pub enum ReadBodyState {
    /// The body is counted: this many bytes are still to come.
    Remaining(usize),
    /// The body is chunked: where the read of the next chunk stands.
    Chunked(ChunkRead),
}

/// How many requests wait for the connection at most, and how many
/// outcomes for their caller: one of each, so that one request is in flight
/// at a time.
pub const EXCHANGE_QUEUE_LEN: usize = 1;

/// How many frames of a response body wait for their consumer at most.
pub const FRAME_QUEUE_LEN: usize = 16;

/// What becomes of the frames of a response body.
#[derive(Clone, Copy, Debug, PartialEq, Eq, Structural)]
pub enum Flow {
    /// They are handed to the consumer.
    Deliver,
    /// The consumer is gone: they are read off the stream and dropped, so
    /// that the next response starts where this one ends.
    Discard,
    /// The body is over.
    Done,
}

/// Where the task of a connection stands.
#[derive(Clone, Copy, Debug, PartialEq, Eq, Structural)]
pub enum Stage {
    /// It waits for a request.
    Idle,
    /// It sends a request and reads the head of the response.
    Exchange,
    /// It reads the body of the response, whose frames flow as given.
    Body(Flow),
    /// The request queue is closed: the task is over.
    Stopped,
}

/// One frame of a response body on its way to the consumer.
pub struct Next {
    /// The bytes of the frame, or the failure that ends the body.
    pub frame: Result<::bytes::Bytes, Error>,
    /// Whether the body ends with this frame.
    pub end: bool,
}

/// A frame as plain values.
pub struct NextView {
    pub frame: Result<Seq<u8>, Error>,
    pub end: bool,
}

impl View for Next {
    type V = NextView;

    open spec fn view(&self) -> NextView {
        NextView {
            frame: match self.frame {
                Ok(b) => Ok(bytes_contents(b)),
                Err(e) => Err(e),
            },
            end: self.end,
        }
    }
}

/// The state of one connection: the wire handler and the parser.
pub struct Connection {
    io: Handler,
    parser: Parser,
}

/// The headers of a request with a body of `len` bytes that is sent whole:
/// `content-length` says `len`, and the chunked coding is not named.
pub open spec fn full_headers(entries: Seq<Entry>, len: usize) -> Seq<Entry> {
    chunked_removed(inserted(entries, content_length_name(), format_number(len as nat, 10)))
}

/// The headers of a request whose body is sent in chunks: there is no
/// `content-length`, and the chunked coding is named.
pub open spec fn chunked_headers(entries: Seq<Entry>) -> Seq<Entry> {
    chunked_inserted(removed(entries, content_length_name()))
}

/// The bytes of a request that is sent whole: its head, with the headers
/// of a whole body, and the payload.
pub open spec fn full_request_wire(
    method: Seq<u8>,
    target: Seq<u8>,
    entries: Seq<Entry>,
    payload: Seq<u8>,
) -> Seq<u8> {
    head_bytes(method, target, full_headers(entries, payload.len() as usize)) + payload
}

/// The headers of a whole body give the body's length and do not name the
/// chunked coding.
pub proof fn lemma_full_headers(entries: Seq<Entry>, len: usize)
    requires
        is_map(entries),
    ensures
        content_len_of(full_headers(entries, len)) == ContentLen::Num(len),
        !chunked_in(full_headers(entries, len)),
        is_map(full_headers(entries, len)),
        full_headers(entries, len).len() <= entries.len() + 1,
{
    let digits = format_number(len as nat, 10);
    let with_len = inserted(entries, content_length_name(), digits);
    lemma_names_differ();
    lemma_inserted(entries, content_length_name(), digits, content_length_name());
    lemma_entry_index(entries, content_length_name());
    assert(is_map(with_len));
    lemma_chunked_removed(with_len, content_length_name());
    lemma_parse_format(len as nat, 10);
}

/// The headers of a chunked body give no length and name the chunked
/// coding.
pub proof fn lemma_chunked_headers(entries: Seq<Entry>)
    requires
        is_map(entries),
    ensures
        content_len_of(chunked_headers(entries)) == ContentLen::Missing,
        chunked_in(chunked_headers(entries)),
        is_map(chunked_headers(entries)),
        chunked_headers(entries).len() <= entries.len() + 1,
{
    let without = removed(entries, content_length_name());
    lemma_names_differ();
    lemma_removed(entries, content_length_name(), content_length_name());
    lemma_chunked_inserted(without, content_length_name());
}

/// The name `host`.
pub open spec fn host_name() -> Seq<u8> {
    seq![104u8, 111u8, 115u8, 116u8]
}

/// The name `accept`.
pub open spec fn accept_name() -> Seq<u8> {
    seq![97u8, 99u8, 99u8, 101u8, 112u8, 116u8]
}

/// The value that accepts every media type.
pub open spec fn accept_all() -> Seq<u8> {
    seq![42u8, 47u8, 42u8]
}

/// The headers of a request that is made ready for HTTP/1.1: `host` names
/// the host, and `accept` keeps its values or, where there is none, accepts
/// everything.
pub open spec fn prepared_headers(entries: Seq<Entry>, host: Seq<u8>) -> Seq<Entry> {
    let with_host = inserted(entries, host_name(), host);
    if first_value(with_host, accept_name()) is Some {
        with_host
    } else {
        inserted(with_host, accept_name(), accept_all())
    }
}

/// Makes a request ready for HTTP/1.1, and tells whether it is: the version
/// is set, the `host` header names the host, and a request without `accept`
/// accepts every media type. It is not ready when the header map takes no
/// more names, which a map of fewer than [`MAX_ENTRIES`] names does; then
/// the headers are as they were, but for `host` where the map took it.
pub fn prepare(head: &mut RequestHead, host: &[u8]) -> (ready: bool)
    requires
        is_field_value(host@),
    ensures
        final(head).method == old(head).method,
        final(head).target == old(head).target,
        final(head).version == Version::Http11,
        ready ==> header_entries(final(head).headers) == prepared_headers(
            header_entries(old(head).headers),
            host@,
        ),
        !ready ==> header_entries(final(head).headers) == header_entries(old(head).headers)
            || header_entries(final(head).headers) == inserted(
            header_entries(old(head).headers),
            host_name(),
            host@,
        ),
        header_entries(old(head).headers).len() < MAX_ENTRIES ==> ready,
        header_entries(final(head).headers).len() <= header_entries(old(head).headers).len() + 2,
{
    head.version = Version::Http11;
    let host_key: [u8; 4] = [104, 111, 115, 116];
    let accept_key: [u8; 6] = [97, 99, 99, 101, 112, 116];
    let all: [u8; 3] = [42, 47, 42];
    assert(host_key@ =~= host_name());
    assert(accept_key@ =~= accept_name());
    assert(all@ =~= accept_all());
    assert(lower(host_key@) =~= host_key@);
    assert(lower(accept_key@) =~= accept_key@);
    proof {
        lemma_inserted(header_entries(head.headers), host_name(), host@, host_name());
    }
    if !header_insert(&mut head.headers, host_key.as_slice(), host) {
        return false;
    }
    match header_get(&head.headers, accept_key.as_slice()) {
        Some(_) => true,
        None => {
            proof {
                lemma_inserted(
                    header_entries(head.headers),
                    accept_name(),
                    accept_all(),
                    accept_name(),
                );
            }
            header_insert(&mut head.headers, accept_key.as_slice(), all.as_slice())
        },
    }
}

/// How the headers of a response frame its body: counted when they give a
/// length, chunked when they give none and name the chunked coding. Any
/// other response is refused as invalid input.
pub open spec fn framing_of(entries: Seq<Entry>) -> Result<ReadBodyState, Error> {
    match content_len_of(entries) {
        ContentLen::Num(n) => Ok(ReadBodyState::Remaining(n)),
        ContentLen::Missing => if chunked_in(entries) {
            Ok(ReadBodyState::Chunked(ChunkRead::start()))
        } else {
            Err(Error::invalid_input())
        },
        ContentLen::Invalid => Err(Error::invalid_input()),
    }
}

/// What a header block gives: the head that is parsed from it, with the
/// framing that the head's own headers decide.
pub open spec fn response_of(block: Seq<u8>, slots: usize) -> Result<
    (ResponseHeadView, ReadBodyState),
    Error,
> {
    match head_of(scanned_response(block, slots), block.len() as int) {
        Ok(head) => match framing_of(head.entries) {
            Ok(state) => Ok((head, state)),
            Err(e) => Err(e),
        },
        Err(e) => Err(e),
    }
}

/// What one look at the buffer gives to the read of a body.
pub enum FrameOutcome {
    /// A frame is there, with the state and the buffer that follow it.
    Frame { next: NextView, state: ReadBodyState, rest: Seq<u8> },
    /// More is to be read first; the state and the buffer are these.
    NeedRead { state: ReadBodyState, rest: Seq<u8> },
}

/// The next frame of a body.
///
/// A counted body of which nothing remains gives the empty last frame. One
/// of which something remains gives what is buffered of it. A chunked body
/// gives its next chunk, the empty chunk being the last frame; a malformed
/// chunk gives a frame with the failure.
pub open spec fn frame_step(buffered: Seq<u8>, state: ReadBodyState) -> FrameOutcome {
    match state {
        ReadBodyState::Remaining(n) => if n == 0 {
            FrameOutcome::Frame {
                next: NextView { frame: Ok(Seq::<u8>::empty()), end: true },
                state,
                rest: buffered,
            }
        } else if buffered.len() == 0 {
            FrameOutcome::NeedRead { state, rest: buffered }
        } else {
            let k = counted_len(n as int, buffered.len() as int);
            FrameOutcome::Frame {
                next: NextView { frame: Ok(buffered.take(k)), end: false },
                state: ReadBodyState::Remaining((n - k) as usize),
                rest: buffered.skip(k),
            }
        },
        ReadBodyState::Chunked(c) => match chunk_step(buffered, c) {
            ChunkOutcome::Chunk { payload, rest } => FrameOutcome::Frame {
                next: NextView { frame: Ok(payload), end: payload.len() == 0 },
                state: ReadBodyState::Chunked(ChunkRead::start()),
                rest,
            },
            ChunkOutcome::NeedRead { state: s, rest } => FrameOutcome::NeedRead {
                state: ReadBodyState::Chunked(s),
                rest,
            },
            ChunkOutcome::Invalid { error, rest } => FrameOutcome::Frame {
                next: NextView { frame: Err(error), end: false },
                state: ReadBodyState::Chunked(ChunkRead::start()),
                rest,
            },
        },
    }
}

/// What becomes of the frames behind one that was delivered or not.
pub open spec fn flow_after(frame: NextView, flow: Flow, delivered: bool) -> Flow {
    if frame.frame is Err || frame.end {
        Flow::Done
    } else if flow == Flow::Deliver && !delivered {
        Flow::Discard
    } else {
        flow
    }
}

/// No frame follows the last one or a failed one, whatever became of it,
/// and a body that is over stays over.
pub proof fn lemma_no_frame_after_the_last(frame: NextView, flow: Flow, delivered: bool)
    ensures
        frame.end || frame.frame is Err ==> flow_after(frame, flow, delivered) == Flow::Done,
        flow == Flow::Done ==> flow_after(frame, flow, delivered) == Flow::Done,
        flow == Flow::Discard ==> flow_after(frame, flow, delivered) != Flow::Deliver,
{
}

impl Stage {
    /// The stage after the request queue answered: with a request the
    /// exchange begins, without one the queue is closed and the task stops.
    /// Only a task that waits asks the queue.
    pub open spec fn spec_on_request(self, received: bool) -> Stage {
        if self == Stage::Idle {
            if received {
                Stage::Exchange
            } else {
                Stage::Stopped
            }
        } else {
            self
        }
    }

    /// The stage after the exchange came to its outcome: after a response
    /// head its body follows, after a failure the next request.
    pub open spec fn spec_on_outcome(self, ok: bool) -> Stage {
        if self == Stage::Exchange {
            if ok {
                Stage::Body(Flow::Deliver)
            } else {
                Stage::Idle
            }
        } else {
            self
        }
    }

    /// The stage after a frame of the body, which was delivered or not: the
    /// body goes on as [`flow_after`] says, and the next request follows it.
    pub open spec fn spec_on_frame(self, frame: NextView, delivered: bool) -> Stage {
        match self {
            Stage::Body(flow) => match flow_after(frame, flow, delivered) {
                Flow::Done => Stage::Idle,
                next => Stage::Body(next),
            },
            _ => self,
        }
    }

    pub fn on_request(self, received: bool) -> (next: Stage)
        ensures
            next == self.spec_on_request(received),
    {
        match self {
            Stage::Idle => if received {
                Stage::Exchange
            } else {
                Stage::Stopped
            },
            _ => self,
        }
    }

    pub fn on_outcome(self, ok: bool) -> (next: Stage)
        ensures
            next == self.spec_on_outcome(ok),
    {
        match self {
            Stage::Exchange => if ok {
                Stage::Body(Flow::Deliver)
            } else {
                Stage::Idle
            },
            _ => self,
        }
    }

    pub fn on_frame(self, frame: &Next, delivered: bool) -> (next: Stage)
        ensures
            next == self.spec_on_frame(frame@, delivered),
    {
        match self {
            Stage::Body(flow) => match frame.follow(flow, delivered) {
                Flow::Done => Stage::Idle,
                next => Stage::Body(next),
            },
            _ => self,
        }
    }
}

/// The life of a connection's task. It stops when the request queue is
/// closed while it waits, also before any request, and by nothing else; and
/// once stopped it stays so. A failed exchange brings it back to waiting
/// for the next request, and so does the end of a body, however it ends.
pub proof fn lemma_task_life(stage: Stage, received: bool, ok: bool, frame: NextView, delivered: bool)
    ensures
        Stage::Idle.spec_on_request(false) == Stage::Stopped,
        Stage::Idle.spec_on_request(true) == Stage::Exchange,
        Stage::Exchange.spec_on_outcome(false) == Stage::Idle,
        stage != Stage::Idle ==> stage.spec_on_request(received) == stage,
        stage.spec_on_outcome(ok) == Stage::Stopped ==> stage == Stage::Stopped,
        stage.spec_on_frame(frame, delivered) == Stage::Stopped ==> stage == Stage::Stopped,
        Stage::Stopped.spec_on_request(received) == Stage::Stopped,
        Stage::Stopped.spec_on_outcome(ok) == Stage::Stopped,
        Stage::Stopped.spec_on_frame(frame, delivered) == Stage::Stopped,
        stage is Body && (frame.end || frame.frame is Err) ==> stage.spec_on_frame(frame, delivered)
            == Stage::Idle,
{
}

impl ReadBodyState {
    /// The state fits a buffer of the given length.
    pub open spec fn fits(self, buffered: int) -> bool {
        match self {
            ReadBodyState::Remaining(_) => true,
            ReadBodyState::Chunked(c) => c.fits(buffered),
        }
    }
}

impl Next {
    /// The frame that ends a body with a failure of the stream.
    pub fn failed(e: Error) -> (next: Next)
        ensures
            next@ == (NextView { frame: Err(e), end: false }),
    {
        Next { frame: Err(e), end: false }
    }

    /// What becomes of the frames behind this one, which was delivered or
    /// not. After a failure and after the last frame the body is over. Else
    /// the frames go on to the consumer as long as every frame found it, and
    /// are dropped from the first that did not.
    pub fn follow(&self, flow: Flow, delivered: bool) -> (next: Flow)
        ensures
            next == flow_after(self@, flow, delivered),
    {
        if self.frame.is_err() || self.end {
            Flow::Done
        } else {
            match flow {
                Flow::Deliver => if delivered {
                    Flow::Deliver
                } else {
                    Flow::Discard
                },
                Flow::Discard => Flow::Discard,
                Flow::Done => Flow::Done,
            }
        }
    }
}

/// The consumer's end of a response body.
#[derive(Debug)]
pub struct FetchBody {
    end: bool,
}

impl FetchBody {
    /// Whether the last frame taken was the body's last.
    pub closed spec fn ended(&self) -> bool {
        self.end
    }

    pub fn new() -> (b: Self)
        ensures
            !b.ended(),
    {
        FetchBody { end: false }
    }

    /// Takes what the frame queue gave: the bytes or the failure of the
    /// frame, noting whether the body ends with it. A queue that gave
    /// nothing is closed.
    pub fn frame(&mut self, received: Option<Next>) -> (r: Result<::bytes::Bytes, Error>)
        ensures
            match received {
                Some(next) => r == next.frame && final(self).ended() == next.end,
                None => r == Err::<::bytes::Bytes, Error>(Error::Closed) && final(self).ended()
                    == old(self).ended(),
            },
    {
        match received {
            Some(next) => {
                self.end = next.end;
                next.frame
            },
            None => Err(Error::Closed),
        }
    }

    /// The chunk that a frame is to a reader of the body: an empty frame is
    /// the body's end, a failure is an I/O failure.
    pub fn chunk(frame: Result<::bytes::Bytes, Error>) -> (c: Option<
        Result<::bytes::Bytes, IoErrorKind>,
    >)
        ensures
            match frame {
                Ok(b) => if bytes_contents(b).len() == 0 {
                    c is None
                } else {
                    c == Some(Ok::<::bytes::Bytes, IoErrorKind>(b))
                },
                Err(e) => c == Some(Err::<::bytes::Bytes, IoErrorKind>(e.spec_into_io())),
            },
    {
        match frame {
            Ok(b) => {
                if b.len() == 0 {
                    None
                } else {
                    Some(Ok(b))
                }
            },
            Err(e) => Some(Err(e.into_io())),
        }
    }

    /// A response body comes in chunks.
    pub fn kind(&self) -> (k: Kind)
        ensures
            k == Kind::Chunked,
    {
        Kind::Chunked
    }

    pub fn is_end(&self) -> (r: bool)
        ensures
            r == self.ended(),
    {
        self.end
    }
}

impl Config {
    /// The read policy of the connection.
    pub closed spec fn strategy(&self) -> ReadStrategy {
        self.read_strategy
    }

    /// The number of header fields a response may have.
    pub closed spec fn header_limit(&self) -> usize {
        self.parser.limit()
    }

    /// The number of bytes the connection buffers at most.
    pub closed spec fn buffer_limit(&self) -> usize {
        self.buffer_limit
    }

    pub fn read_strategy(self, read_strategy: ReadStrategy) -> (c: Self)
        ensures
            c.strategy() == read_strategy,
            c.header_limit() == self.header_limit(),
            c.buffer_limit() == self.buffer_limit(),
    {
        Config { parser: self.parser, read_strategy, buffer_limit: self.buffer_limit }
    }

    pub fn max_headers(self, n: usize) -> (c: Self)
        ensures
            c.strategy() == self.strategy(),
            c.header_limit() == n,
            c.buffer_limit() == self.buffer_limit(),
    {
        let mut parser = self.parser;
        parser.set_max_headers(n);
        Config { parser, read_strategy: self.read_strategy, buffer_limit: self.buffer_limit }
    }

    /// Sets how many bytes the connection buffers at most. A header block
    /// or a chunk that does not fit is too large an input.
    pub fn max_buffer(self, n: usize) -> (c: Self)
        ensures
            c.strategy() == self.strategy(),
            c.header_limit() == self.header_limit(),
            c.buffer_limit() == n,
    {
        Config { parser: self.parser, read_strategy: self.read_strategy, buffer_limit: n }
    }

    /// The state of a new connection: nothing buffered, the read policy at
    /// its start.
    pub fn handshake(self) -> (conn: Connection)
        ensures
            conn.wf(),
            conn.buffered() == Seq::<u8>::empty(),
            conn.spare() == Seq::<u8>::empty(),
            conn.strategy() == self.strategy().spec_state(),
            conn.limit() == kept_limit(self.buffer_limit()),
            conn.slots() == if self.header_limit() <= MAX_SLOTS {
                self.header_limit()
            } else {
                MAX_SLOTS
            },
    {
        Connection {
            io: Handler::with_limit(self.read_strategy.state(), self.buffer_limit),
            parser: self.parser,
        }
    }
}

impl Default for Config {
    fn default() -> (c: Self)
        ensures
            c.strategy() == (ReadStrategy::Adaptive { max: crate::strategy::MAX_BUFFER_LEN }),
            c.header_limit() == crate::parser::DEFAULT_MAX_HEADERS,
            c.buffer_limit() == BUFFER_LIMIT,
    {
        Config {
            parser: Parser::new(),
            read_strategy: ReadStrategy::default(),
            buffer_limit: BUFFER_LIMIT,
        }
    }
}

/// Decides the framing of a response body from the response's headers.
pub fn framing(headers: &::http::HeaderMap) -> (r: Result<ReadBodyState, Error>)
    ensures
        r == framing_of(header_entries(*headers)),
{
    match parse_content_len(headers) {
        ContentLen::Num(n) => Ok(ReadBodyState::Remaining(n)),
        ContentLen::Missing => {
            if has_chunked_encoding(headers) {
                Ok(ReadBodyState::Chunked(ChunkRead::SizeLine { cursor: 0 }))
            } else {
                Err(Error::invalid_input())
            }
        },
        ContentLen::Invalid => Err(Error::invalid_input()),
    }
}

impl Connection {
    pub closed spec fn wf(&self) -> bool {
        self.io.wf()
    }

    /// The bytes received and not yet handed out.
    pub closed spec fn buffered(&self) -> Seq<u8> {
        self.io.buffered()
    }

    /// The room that the next read may fill.
    pub closed spec fn spare(&self) -> Seq<u8> {
        self.io.spare()
    }

    /// The state of the read policy.
    pub closed spec fn strategy(&self) -> Strategy {
        self.io.strategy()
    }

    /// The number of header slots a scan of a response head is given.
    pub closed spec fn slots(&self) -> usize {
        self.parser.slots()
    }

    /// How many bytes are buffered at most.
    pub closed spec fn limit(&self) -> usize {
        self.io.limit()
    }

    /// How many bytes the next read asks for: what the policy asks for, as
    /// far as the limit leaves room behind what is buffered.
    pub open spec fn wanted(&self) -> int {
        let left = self.limit() - self.buffered().len();
        if self.strategy().spec_next() <= left {
            self.strategy().spec_next() as int
        } else {
            left
        }
    }

    /// Whether a read can be prepared: there is room to read into. There is
    /// none when the policy asks for nothing or the buffer has reached its
    /// limit, unless spare room is left from before.
    pub open spec fn can_read(&self) -> bool {
        self.spare().len() > 0 || self.wanted() > 0
    }

    /// The spare room once a read is prepared: as it is when it covers what
    /// the read asks for, else that many zero bytes.
    pub open spec fn prepared_room(&self) -> Seq<u8> {
        if self.spare().len() >= self.wanted() {
            self.spare()
        } else {
            zeros(self.wanted() as nat)
        }
    }

    /// What is buffered never passes the limit, and a buffer that has
    /// reached it refuses the next read: a stream that never brings what
    /// is looked for ends as too large an input.
    pub proof fn lemma_within_limit(&self)
        requires
            self.wf(),
        ensures
            self.buffered().len() + self.spare().len() <= self.limit() <= isize::MAX,
            self.buffered().len() >= self.limit() ==> !self.can_read(),
    {
        self.io.lemma_within_limit();
    }

    /// How many bytes are buffered at most.
    pub fn buffer_limit(&self) -> (n: usize)
        ensures
            n == self.limit(),
    {
        self.io.buffer_limit()
    }

    /// The number of bytes received and not yet handed out.
    pub fn buffered_len(&self) -> (n: usize)
        requires
            self.wf(),
        ensures
            n == self.buffered().len(),
    {
        self.io.buffered_len()
    }

    /// Prepares the next read of the stream: see [`Handler::begin_read`].
    pub fn begin_read(&mut self) -> (r: Result<(), Error>)
        requires
            old(self).wf(),
        ensures
            final(self).wf(),
            final(self).buffered() == old(self).buffered(),
            final(self).strategy() == old(self).strategy(),
            final(self).slots() == old(self).slots(),
            final(self).limit() == old(self).limit(),
            r is Ok <==> old(self).can_read(),
            r is Err ==> r == Err::<(), Error>(Error::TooLargeInput) && final(self).spare() == old(
                self,
            ).spare(),
            r is Ok ==> final(self).spare() == old(self).prepared_room(),
            r is Ok ==> final(self).spare().len() > 0,
    {
        self.io.begin_read()
    }

    /// The room that the read of the stream writes into.
    pub fn read_target(&mut self) -> (s: &mut [u8])
        requires
            old(self).wf(),
        ensures
            s@ == old(self).spare(),
            final(self).wf(),
            final(self).spare() == final(s)@,
            final(self).buffered() == old(self).buffered(),
            final(self).strategy() == old(self).strategy(),
            final(self).slots() == old(self).slots(),
            final(self).limit() == old(self).limit(),
    {
        self.io.read_target()
    }

    /// Commits a read of `n` bytes: see [`Handler::end_read`].
    pub fn end_read(&mut self, n: usize) -> (r: Result<(), Error>)
        requires
            old(self).wf(),
            n <= old(self).spare().len(),
        ensures
            final(self).wf(),
            final(self).buffered() == old(self).buffered() + old(self).spare().take(n as int),
            final(self).spare() == old(self).spare().skip(n as int),
            final(self).strategy() == old(self).strategy().spec_record(n),
            final(self).slots() == old(self).slots(),
            final(self).limit() == old(self).limit(),
            r == if n == 0 {
                Err::<(), Error>(Error::unexpected_eof())
            } else {
                Ok::<(), Error>(())
            },
    {
        self.io.end_read(n)
    }

    /// Frames a request whose body is sent whole: sets `content-length` to
    /// the payload's length, takes the chunked coding out, and gives the
    /// head's bytes and the payload, to be written in this order. It gives
    /// nothing, and leaves the head as it is, when the header map takes no
    /// more names; a map of at most [`MAX_ENTRIES`] names does.
    pub fn send_full<'a>(&'a mut self, head: &mut RequestHead, payload: &'a [u8]) -> (out: Option<
        (&'a [u8], &'a [u8]),
    >)
        requires
            old(self).wf(),
            old(head).version == Version::Http11,
        ensures
            final(self).wf(),
            final(self).buffered() == old(self).buffered(),
            final(self).spare() == old(self).spare(),
            final(self).strategy() == old(self).strategy(),
            final(self).slots() == old(self).slots(),
            final(self).limit() == old(self).limit(),
            final(head).method == old(head).method,
            final(head).target == old(head).target,
            final(head).version == old(head).version,
            header_entries(old(head).headers).len() <= MAX_ENTRIES ==> out is Some,
            match out {
                Some(o) => {
                    &&& header_entries(final(head).headers) == full_headers(
                        header_entries(old(head).headers),
                        payload@.len() as usize,
                    )
                    &&& content_len_of(header_entries(final(head).headers)) == ContentLen::Num(
                        payload@.len() as usize,
                    )
                    &&& !chunked_in(header_entries(final(head).headers))
                    &&& header_entries(final(head).headers).len() <= header_entries(
                        old(head).headers,
                    ).len() + 1
                    &&& o.0@ == final(head).wire()
                    &&& o.1@ == payload@
                    &&& o.0@ + o.1@ == full_request_wire(
                        old(head).method@,
                        old(head).target@,
                        header_entries(old(head).headers),
                        payload@,
                    )
                },
                None => header_entries(final(head).headers) == header_entries(old(head).headers),
            },
    {
        let name = content_length();
        let mut digits: Vec<u8> = Vec::new();
        write_unsigned(&mut digits, payload.len(), 10);
        proof {
            lemma_format_number(payload@.len(), 10);
            assert forall|i: int| 0 <= i < digits@.len() implies is_value_byte(
                #[trigger] digits@[i],
            ) by {
                assert(digit_value(digits@[i], 10) is Some);
            }
        }
        if !header_insert(&mut head.headers, name.as_slice(), digits.as_slice()) {
            return None;
        }
        proof {
            lemma_full_headers(header_entries(old(head).headers), payload@.len() as usize);
        }
        remove_chunked_encoding(&mut head.headers);
        let bytes = self.io.write_header(head);
        Some((bytes, payload))
    }

    /// Frames a request whose body is sent in chunks: takes
    /// `content-length` out, names the chunked coding, and gives the head's
    /// bytes to be written. It gives nothing, and leaves the head without
    /// `content-length` only, when the header map takes no more names; a
    /// map of at most [`MAX_ENTRIES`] names does.
    pub fn send_chunked(&mut self, head: &mut RequestHead) -> (out: Option<&[u8]>)
        requires
            old(self).wf(),
            old(head).version == Version::Http11,
        ensures
            final(self).wf(),
            final(self).buffered() == old(self).buffered(),
            final(self).spare() == old(self).spare(),
            final(self).strategy() == old(self).strategy(),
            final(self).slots() == old(self).slots(),
            final(self).limit() == old(self).limit(),
            final(head).method == old(head).method,
            final(head).target == old(head).target,
            final(head).version == old(head).version,
            header_entries(old(head).headers).len() <= MAX_ENTRIES ==> out is Some,
            match out {
                Some(o) => {
                    &&& header_entries(final(head).headers) == chunked_headers(
                        header_entries(old(head).headers),
                    )
                    &&& content_len_of(header_entries(final(head).headers)) == ContentLen::Missing
                    &&& chunked_in(header_entries(final(head).headers))
                    &&& header_entries(final(head).headers).len() <= header_entries(
                        old(head).headers,
                    ).len() + 1
                    &&& o@ == final(head).wire()
                },
                None => header_entries(final(head).headers) == removed(
                    header_entries(old(head).headers),
                    content_length_name(),
                ),
            },
    {
        let name = content_length();
        header_remove(&mut head.headers, name.as_slice());
        proof {
            lemma_removed(
                header_entries(old(head).headers),
                content_length_name(),
                content_length_name(),
            );
            lemma_chunked_headers(header_entries(old(head).headers));
        }
        if !insert_chunked_encoding(&mut head.headers) {
            return None;
        }
        Some(self.io.write_header(head))
    }

    /// Frames one chunk of a request body and gives its three pieces, to be
    /// written in this order. The empty chunk ends the body.
    pub fn send_chunk<'a>(&'a mut self, chunk: &'a [u8]) -> (out: (&'a [u8], &'a [u8], &'static [u8]))
        requires
            old(self).wf(),
        ensures
            final(self).wf(),
            final(self).buffered() == old(self).buffered(),
            final(self).spare() == old(self).spare(),
            final(self).strategy() == old(self).strategy(),
            final(self).slots() == old(self).slots(),
            final(self).limit() == old(self).limit(),
            out.0@ == format_number(chunk@.len(), 16) + crlf(),
            out.1@ == chunk@,
            out.2@ == crlf(),
            out.0@ + out.1@ + out.2@ == chunk_frame(chunk@),
    {
        self.io.write_chunk(chunk)
    }

    /// Looks for the response's head in what is buffered. Once the header
    /// block is whole, it is parsed and decides the framing of the body:
    /// see [`response_of`]. Of more fields than a header map is sure to
    /// take the map may refuse one, which is a parse error for too many
    /// headers.
    pub fn read_head(&mut self, cursor: &mut usize) -> (out: Step<
        Result<(ResponseHead, ReadBodyState), Error>,
    >)
        requires
            old(self).wf(),
            *old(cursor) <= old(self).buffered().len(),
        ensures
            final(self).wf(),
            final(self).spare() == old(self).spare(),
            final(self).strategy() == old(self).strategy(),
            final(self).slots() == old(self).slots(),
            final(self).limit() == old(self).limit(),
            match delimited_len_from(
                old(self).buffered(),
                header_end(),
                scan_start(*old(cursor) as int, 4),
            ) {
                Some(at) => {
                    &&& out matches Step::Ready(r)
                    &&& final(self).buffered() == old(self).buffered().skip(at)
                    &&& match r {
                        Ok((head, state)) => response_of(
                            old(self).buffered().take(at),
                            old(self).slots(),
                        ) == Ok::<(ResponseHeadView, ReadBodyState), Error>((head@, state)),
                        Err(e) => response_of(old(self).buffered().take(at), old(self).slots())
                            == Err::<(ResponseHeadView, ReadBodyState), Error>(e) || (many_fields(
                            scanned_response(old(self).buffered().take(at), old(self).slots()),
                        ) && e == Error::Parse(ParseError::TooManyHeaders)),
                    }
                },
                None => {
                    &&& out is NeedRead
                    &&& final(self).buffered() == old(self).buffered()
                    &&& *final(cursor) == old(self).buffered().len()
                },
            },
    {
        match self.io.read_header(cursor) {
            Step::NeedRead => Step::NeedRead,
            Step::Ready(block) => {
                let r = match self.parser.parse_header(block) {
                    Err(e) => Err(e),
                    Ok(head) => match framing(&head.headers) {
                        Ok(state) => Ok((head, state)),
                        Err(e) => Err(e),
                    },
                };
                Step::Ready(r)
            },
        }
    }

    /// Takes the next frame of the response body out of what is buffered:
    /// see [`frame_step`].
    pub fn read_frame(&mut self, state: &mut ReadBodyState) -> (out: Step<Next>)
        requires
            old(self).wf(),
            old(state).fits(old(self).buffered().len() as int),
        ensures
            final(self).wf(),
            final(self).spare() == old(self).spare(),
            final(self).strategy() == old(self).strategy(),
            final(self).slots() == old(self).slots(),
            final(self).limit() == old(self).limit(),
            final(state).fits(final(self).buffered().len() as int),
            match frame_step(old(self).buffered(), *old(state)) {
                FrameOutcome::Frame { next, state: s, rest } => {
                    &&& out matches Step::Ready(n)
                    &&& n@ == next
                    &&& *final(state) == s
                    &&& final(self).buffered() == rest
                },
                FrameOutcome::NeedRead { state: s, rest } => {
                    &&& out is NeedRead
                    &&& *final(state) == s
                    &&& final(self).buffered() == rest
                },
            },
    {
        match *state {
            ReadBodyState::Remaining(n) => {
                if n == 0 {
                    return Step::Ready(Next { frame: Ok(::bytes::Bytes::new()), end: true });
                }
                let mut remaining = n;
                match self.io.read_body(&mut remaining) {
                    Step::NeedRead => Step::NeedRead,
                    Step::Ready(b) => {
                        *state = ReadBodyState::Remaining(remaining);
                        Step::Ready(Next { frame: Ok(b), end: false })
                    },
                }
            },
            ReadBodyState::Chunked(c) => {
                let mut chunk = c;
                let r = self.io.read_chunk(&mut chunk);
                *state = ReadBodyState::Chunked(chunk);
                match r {
                    Ok(Step::NeedRead) => Step::NeedRead,
                    Ok(Step::Ready(b)) => {
                        let end = b.len() == 0;
                        Step::Ready(Next { frame: Ok(b), end })
                    },
                    Err(e) => Step::Ready(Next { frame: Err(e), end: false }),
                }
            },
        }
    }
}

} // verus!
