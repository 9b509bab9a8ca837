//! A stream as the sequence of its reads, the reads of the wire handler run
//! over it, and what holds of them however the stream is cut into reads.

use vstd::prelude::*;
use crate::client::{chunked_headers, frame_step, FrameOutcome, NextView, ReadBodyState};
use crate::head::head_bytes;
use crate::header_map::Entry;
use crate::error::Error;
use crate::handler::{
    chunk_frame, chunk_step, chunk_total, crlf, payload_step, scan_start, ChunkOutcome, ChunkRead,
};
use crate::number::{format_number, lemma_format_number, lemma_parse_format};
use crate::scan::{
    delimited_len, delimited_len_from, find_from, lemma_find_from, lemma_find_from_append,
    lemma_find_from_is, lemma_find_from_skip, lemma_occurs_at_append, occurs_at,
};

verus! {

/// The bytes of a stream that comes in the given reads.
pub open spec fn concat(reads: Seq<Seq<u8>>) -> Seq<u8>
    decreases reads.len(),
{
    if reads.len() == 0 {
        seq![]
    } else {
        reads[0] + concat(reads.skip(1))
    }
}

/// Every read brings at least one byte.
pub open spec fn all_nonempty(reads: Seq<Seq<u8>>) -> bool {
    forall|i: int| 0 <= i < reads.len() ==> (#[trigger] reads[i]).len() > 0
}

/// The shortest prefix of `s` that ends with `sep`.
pub open spec fn delimited_prefix(s: Seq<u8>, sep: Seq<u8>) -> Option<Seq<u8>> {
    match delimited_len(s, sep) {
        Some(at) => Some(s.take(at)),
        None => None,
    }
}

/// How a delimited read ends on a buffer with a limit.
pub enum Delimited {
    /// The delimiter was found: this is handed out.
    Found(Seq<u8>),
    /// The buffer reached its limit before the delimiter came.
    TooLarge,
    /// The stream ended before the delimiter came.
    Eof,
}

/// The reads each find room in a buffer that holds `buffered` bytes and is
/// limited to `limit`, when nothing is handed out in between.
pub open spec fn fit(buffered: int, reads: Seq<Seq<u8>>, limit: int) -> bool
    decreases reads.len(),
{
    reads.len() == 0 || (buffered + reads[0].len() <= limit && fit(
        buffered + reads[0].len(),
        reads.skip(1),
        limit,
    ))
}

/// What a delimited read comes to when it is run over a stream, with a
/// buffer limited to `limit` bytes: it looks at the buffer, and while the
/// delimiter is not found it takes the next read and looks again from the
/// cursor. A buffer that has reached its limit takes no further read, and
/// the input is too large. A stream that ends first, by running out of
/// reads or by a read of nothing, ends unexpectedly.
pub open spec fn run_until_within(
    buffered: Seq<u8>,
    cursor: int,
    reads: Seq<Seq<u8>>,
    sep: Seq<u8>,
    limit: int,
) -> Delimited
    decreases reads.len(),
{
    match delimited_len_from(buffered, sep, scan_start(cursor, sep.len() as int)) {
        Some(at) => Delimited::Found(buffered.take(at)),
        None => if buffered.len() >= limit {
            Delimited::TooLarge
        } else if reads.len() == 0 || reads[0].len() == 0 {
            Delimited::Eof
        } else {
            run_until_within(buffered + reads[0], buffered.len() as int, reads.skip(1), sep, limit)
        },
    }
}

/// The limit of the buffer guards its growth: whatever a stream brings, in
/// reads that each find room, a delimited read hands out the shortest
/// prefix of the stream that ends with the delimiter; and a stream that
/// holds no delimiter is too large an input as soon as it has filled the
/// buffer to its limit, and an unexpected end where it ends before.
pub proof fn lemma_run_until_within(
    buffered: Seq<u8>,
    cursor: int,
    reads: Seq<Seq<u8>>,
    sep: Seq<u8>,
    limit: int,
)
    requires
        sep.len() > 0,
        0 <= cursor <= buffered.len() <= limit,
        all_nonempty(reads),
        fit(buffered.len() as int, reads, limit),
        forall|j: int|
            0 <= j < scan_start(cursor, sep.len() as int) ==> !occurs_at(buffered, sep, j),
    ensures
        (buffered + concat(reads)).len() <= limit,
        run_until_within(buffered, cursor, reads, sep, limit) == match delimited_prefix(
            buffered + concat(reads),
            sep,
        ) {
            Some(prefix) => Delimited::Found(prefix),
            None => if (buffered + concat(reads)).len() >= limit {
                Delimited::TooLarge
            } else {
                Delimited::Eof
            },
        },
    decreases reads.len(),
{
    let start = scan_start(cursor, sep.len() as int);
    let total = buffered + concat(reads);
    lemma_find_from_skip(buffered, sep, 0, start);
    lemma_find_from(buffered, sep, 0);
    if reads.len() == 0 {
        assert(total =~= buffered);
    } else {
        let longer = buffered + reads[0];
        lemma_all_nonempty_tail(reads);
        assert(longer + concat(reads.skip(1)) =~= total);
        assert forall|j: int|
            0 <= j < scan_start(buffered.len() as int, sep.len() as int) implies !occurs_at(
            longer,
            sep,
            j,
        ) || find_from(buffered, sep, 0) is Some by {
            lemma_occurs_at_append(buffered, reads[0], sep, j);
        }
        match find_from(buffered, sep, 0) {
            Some(i) => {
                lemma_find_from_append(buffered, concat(reads), sep, 0);
                assert(total.take(i + sep.len()) =~= buffered.take(i + sep.len()));
                lemma_total_fits(buffered.len() as int, reads, limit);
            },
            None => {
                lemma_run_until_within(longer, buffered.len() as int, reads.skip(1), sep, limit);
            },
        }
    }
}

/// Reads that each find room bring no more than the limit holds.
pub proof fn lemma_total_fits(buffered: int, reads: Seq<Seq<u8>>, limit: int)
    requires
        buffered <= limit,
        fit(buffered, reads, limit),
    ensures
        buffered + concat(reads).len() <= limit,
    decreases reads.len(),
{
    if reads.len() > 0 {
        lemma_total_fits(buffered + reads[0].len(), reads.skip(1), limit);
    }
}

/// Delimited reads do not depend on how the stream is cut: however a stream
/// comes, in reads of at least one byte that each find room, the read ends
/// the same way; and where the stream holds the delimiter, the read hands
/// out the shortest prefix of the whole stream that ends with it.
pub proof fn lemma_read_until_partition(
    reads: Seq<Seq<u8>>,
    other: Seq<Seq<u8>>,
    sep: Seq<u8>,
    limit: int,
)
    requires
        sep.len() > 0,
        all_nonempty(reads),
        all_nonempty(other),
        fit(0, reads, limit),
        fit(0, other, limit),
        concat(reads) == concat(other),
    ensures
        run_until_within(Seq::<u8>::empty(), 0, reads, sep, limit) == run_until_within(
            Seq::<u8>::empty(),
            0,
            other,
            sep,
            limit,
        ),
        delimited_prefix(concat(reads), sep) matches Some(prefix) ==> run_until_within(
            Seq::<u8>::empty(),
            0,
            reads,
            sep,
            limit,
        ) == Delimited::Found(prefix),
{
    assert(Seq::<u8>::empty() + concat(reads) =~= concat(reads));
    assert(Seq::<u8>::empty() + concat(other) =~= concat(other));
    if limit >= 0 {
        lemma_run_until_within(Seq::<u8>::empty(), 0, reads, sep, limit);
        lemma_run_until_within(Seq::<u8>::empty(), 0, other, sep, limit);
    } else {
        assert(reads.len() == 0);
        assert(other.len() == 0);
    }
}

/// The frame that a stream's early end gives.
pub open spec fn eof_frame() -> NextView {
    NextView { frame: Err(Error::unexpected_eof()), end: false }
}

/// The frame that a buffer at its limit gives.
pub open spec fn too_large_frame() -> NextView {
    NextView { frame: Err(Error::TooLargeInput), end: false }
}

/// The frames of a response body when the read of frames is run over a
/// stream, with a buffer limited to `limit` bytes: a frame is taken
/// whenever the buffer holds one, the next read is taken whenever it does
/// not, and the run ends with the last frame, with a failed frame, with the
/// failure of a buffer that is at its limit and holds no frame, or with the
/// failure of a stream that ends early.
pub open spec fn run_frames(
    buffered: Seq<u8>,
    state: ReadBodyState,
    reads: Seq<Seq<u8>>,
    limit: int,
) -> Seq<NextView>
    decreases reads.len(), buffered.len(),
{
    match frame_step(buffered, state) {
        FrameOutcome::Frame { next, state: s, rest } => if next.end || next.frame is Err
            || rest.len() >= buffered.len() {
            seq![next]
        } else {
            seq![next] + run_frames(rest, s, reads, limit)
        },
        FrameOutcome::NeedRead { state: s, rest } => if rest.len() >= limit {
            seq![too_large_frame()]
        } else if reads.len() == 0 || reads[0].len() == 0 || rest.len() > buffered.len() {
            seq![eof_frame()]
        } else {
            run_frames(rest + reads[0], s, reads.skip(1), limit)
        },
    }
}

/// The bytes that a run of frames delivers, in their order.
pub open spec fn payloads(frames: Seq<NextView>) -> Seq<u8>
    decreases frames.len(),
{
    if frames.len() == 0 {
        seq![]
    } else {
        match frames[0].frame {
            Ok(b) => b + payloads(frames.skip(1)),
            Err(_) => payloads(frames.skip(1)),
        }
    }
}

/// The frame that ends a body.
pub open spec fn last_frame() -> NextView {
    NextView { frame: Ok(Seq::<u8>::empty()), end: true }
}

/// Frames that carry a body and end it: every frame but the last holds
/// bytes and does not end the body, and the last is the empty last frame.
pub open spec fn delivers_whole(frames: Seq<NextView>) -> bool {
    &&& frames.len() > 0
    &&& frames.last() == last_frame()
    &&& forall|i: int|
        0 <= i < frames.len() - 1 ==> {
            &&& (#[trigger] frames[i]).frame matches Ok(b)
            &&& b.len() > 0
            &&& !frames[i].end
        }
}

/// Counted framing: of a body of `n` bytes, on a stream that holds them
/// all, exactly the first `n` bytes of the stream are delivered, in frames
/// that each hold bytes, and then the empty last frame, after which the run
/// is over. This holds however the stream is cut into reads, and whatever
/// the limit of the buffer, which a counted body never fills.
pub proof fn lemma_counted_frames(buffered: Seq<u8>, n: usize, reads: Seq<Seq<u8>>, limit: int)
    requires
        all_nonempty(reads),
        n <= (buffered + concat(reads)).len(),
        limit > 0,
    ensures
        delivers_whole(run_frames(buffered, ReadBodyState::Remaining(n), reads, limit)),
        payloads(run_frames(buffered, ReadBodyState::Remaining(n), reads, limit)) == (buffered
            + concat(reads)).take(n as int),
    decreases reads.len(), buffered.len(),
{
    let state = ReadBodyState::Remaining(n);
    let total = buffered + concat(reads);
    let frames = run_frames(buffered, state, reads, limit);
    if n == 0 {
        assert(frames =~= seq![last_frame()]);
        assert(payloads(frames.skip(1)) =~= Seq::<u8>::empty());
        assert(payloads(frames) =~= total.take(0));
    } else if buffered.len() == 0 {
        assert(total =~= concat(reads));
        assert(reads.len() > 0);
        assert(all_nonempty(reads.skip(1))) by {
            assert forall|i: int| 0 <= i < reads.skip(1).len() implies (#[trigger] reads.skip(
                1,
            )[i]).len() > 0 by {
                assert(reads.skip(1)[i] == reads[i + 1]);
            }
        }
        assert(buffered + reads[0] + concat(reads.skip(1)) =~= total);
        lemma_counted_frames(buffered + reads[0], n, reads.skip(1), limit);
    } else {
        let k = if n <= buffered.len() {
            n as int
        } else {
            buffered.len() as int
        };
        let first = NextView { frame: Ok(buffered.take(k)), end: false };
        let rest = buffered.skip(k);
        let left = (n - k) as usize;
        assert(rest + concat(reads) =~= total.skip(k));
        lemma_counted_frames(rest, left, reads, limit);
        let tail = run_frames(rest, ReadBodyState::Remaining(left), reads, limit);
        assert(frames == seq![first] + tail);
        assert(frames.skip(1) =~= tail);
        assert(frames.last() == tail.last());
        assert forall|i: int| 0 <= i < frames.len() - 1 implies {
            &&& (#[trigger] frames[i]).frame matches Ok(b)
            &&& b.len() > 0
            &&& !frames[i].end
        } by {
            if i > 0 {
                assert(frames[i] == tail[i - 1]);
            }
        }
        assert(total.take(n as int) =~= buffered.take(k) + total.skip(k).take(left as int));
    }
}

/// The payloads of a chunked body: chunks that each hold bytes, then the
/// empty chunk that ends the body. Each is short enough for its length and
/// its line ending to be counted.
pub open spec fn is_chunk_list(ps: Seq<Seq<u8>>) -> bool {
    &&& ps.len() > 0
    &&& ps.last().len() == 0
    &&& forall|i: int| 0 <= i < ps.len() - 1 ==> (#[trigger] ps[i]).len() > 0
    &&& forall|i: int| 0 <= i < ps.len() ==> (#[trigger] ps[i]).len() + 2 <= usize::MAX
}

/// Every chunk finds room in a buffer limited to `limit` bytes: its size
/// line does, and so does its payload with the line ending.
pub open spec fn chunks_fit(ps: Seq<Seq<u8>>, limit: int) -> bool {
    forall|i: int|
        0 <= i < ps.len() ==> format_number((#[trigger] ps[i]).len(), 16).len() + 2 <= limit
            && ps[i].len() + 2 <= limit
}

/// The bytes of the given chunks on the wire, one framed after the other.
pub open spec fn chunked_wire(ps: Seq<Seq<u8>>) -> Seq<u8>
    decreases ps.len(),
{
    if ps.len() == 0 {
        seq![]
    } else {
        chunk_frame(ps[0]) + chunked_wire(ps.skip(1))
    }
}

/// Chunk by chunk the wire grows by the frame of the chunk that is written.
pub proof fn lemma_chunked_wire_push(ps: Seq<Seq<u8>>, p: Seq<u8>)
    ensures
        chunked_wire(ps.push(p)) == chunked_wire(ps) + chunk_frame(p),
    decreases ps.len(),
{
    let all = ps.push(p);
    if ps.len() == 0 {
        assert(all.skip(1) =~= Seq::<Seq<u8>>::empty());
        assert(chunked_wire(all.skip(1)) =~= Seq::<u8>::empty());
        assert(chunked_wire(all) =~= chunked_wire(ps) + chunk_frame(p));
    } else {
        lemma_chunked_wire_push(ps.skip(1), p);
        assert(all.skip(1) =~= ps.skip(1).push(p));
        assert(all[0] == ps[0]);
        assert(chunked_wire(all) =~= chunked_wire(ps) + chunk_frame(p));
    }
}

/// The frame of the empty chunk, which ends a chunked body, is a zero, a
/// line ending and an empty line.
pub proof fn lemma_last_chunk_frame()
    ensures
        chunk_frame(Seq::<u8>::empty()) == seq![48u8, 13u8, 10u8, 13u8, 10u8],
{
    assert(format_number(0, 16) =~= seq![48u8]);
    assert(chunk_frame(Seq::<u8>::empty()) =~= seq![48u8, 13u8, 10u8, 13u8, 10u8]);
}

/// The bytes of a request that is sent in chunks: its head, with the
/// headers of a chunked body, the frames of its chunks, and the frame of
/// the empty chunk.
pub open spec fn chunked_request_wire(
    method: Seq<u8>,
    target: Seq<u8>,
    entries: Seq<Entry>,
    chunks: Seq<Seq<u8>>,
) -> Seq<u8> {
    head_bytes(method, target, chunked_headers(entries)) + chunked_wire(
        chunks.push(Seq::<u8>::empty()),
    )
}

/// A request that is sent in chunks is its head, then each chunk behind its
/// length in hexadecimal and between line endings, then a zero, a line
/// ending and an empty line.
pub proof fn lemma_chunked_request_wire(
    method: Seq<u8>,
    target: Seq<u8>,
    entries: Seq<Entry>,
    chunks: Seq<Seq<u8>>,
)
    ensures
        chunked_request_wire(method, target, entries, chunks) == head_bytes(
            method,
            target,
            chunked_headers(entries),
        ) + chunked_wire(chunks) + seq![48u8, 13u8, 10u8, 13u8, 10u8],
{
    lemma_chunked_wire_push(chunks, Seq::<u8>::empty());
    lemma_last_chunk_frame();
    assert(chunked_request_wire(method, target, entries, chunks) =~= head_bytes(
        method,
        target,
        chunked_headers(entries),
    ) + chunked_wire(chunks) + seq![48u8, 13u8, 10u8, 13u8, 10u8]);
}

/// The frames that deliver the given chunks: one for each, the empty chunk
/// ending the body.
pub open spec fn chunk_frames(ps: Seq<Seq<u8>>) -> Seq<NextView> {
    Seq::new(ps.len(), |i: int| NextView { frame: Ok(ps[i]), end: ps[i].len() == 0 })
}

/// What the read of a chunk in the given state has to find in the stream
/// for the chunks `ps` to come out: at a size line, their bytes on the
/// wire, of which the part before the cursor holds no line ending; in a
/// payload, the first chunk's payload and line ending, then the others.
pub open spec fn on_track(
    buffered: Seq<u8>,
    state: ChunkRead,
    total: Seq<u8>,
    ps: Seq<Seq<u8>>,
    extra: Seq<u8>,
) -> bool {
    &&& is_chunk_list(ps)
    &&& match state {
        ChunkRead::SizeLine { cursor } => {
            &&& total == chunked_wire(ps) + extra
            &&& cursor <= buffered.len()
            &&& forall|j: int| 0 <= j < scan_start(cursor as int, 2) ==> !occurs_at(buffered, crlf(), j)
        },
        ChunkRead::Payload { len } => {
            &&& len == ps[0].len() + 2
            &&& total == ps[0] + crlf() + chunked_wire(ps.skip(1)) + extra
        },
    }
}

/// The chunks behind the first are a chunk list too, when the first holds
/// bytes.
pub proof fn lemma_chunk_list_tail(ps: Seq<Seq<u8>>)
    requires
        is_chunk_list(ps),
        ps[0].len() > 0,
    ensures
        is_chunk_list(ps.skip(1)),
        chunk_frames(ps) == seq![NextView { frame: Ok(ps[0]), end: false }] + chunk_frames(
            ps.skip(1),
        ),
        forall|limit: int| chunks_fit(ps, limit) ==> #[trigger] chunks_fit(ps.skip(1), limit),
{
    let tail = ps.skip(1);
    assert forall|limit: int| chunks_fit(ps, limit) implies #[trigger] chunks_fit(
        ps.skip(1),
        limit,
    ) by {
        assert forall|i: int| 0 <= i < tail.len() implies format_number(
            (#[trigger] tail[i]).len(),
            16,
        ).len() + 2 <= limit && tail[i].len() + 2 <= limit by {
            assert(tail[i] == ps[i + 1]);
        }
    }
    assert(ps.len() >= 2);
    assert(tail.last() == ps.last());
    assert forall|i: int| 0 <= i < tail.len() - 1 implies (#[trigger] tail[i]).len() > 0 by {
        assert(tail[i] == ps[i + 1]);
    }
    assert forall|i: int| 0 <= i < tail.len() implies (#[trigger] tail[i]).len() + 2
        <= usize::MAX by {
        assert(tail[i] == ps[i + 1]);
    }
    assert(chunk_frames(ps) =~= seq![NextView { frame: Ok(ps[0]), end: false }] + chunk_frames(
        tail,
    ));
}

/// The reads behind the first all bring bytes when all reads do.
pub proof fn lemma_all_nonempty_tail(reads: Seq<Seq<u8>>)
    requires
        all_nonempty(reads),
        reads.len() > 0,
    ensures
        all_nonempty(reads.skip(1)),
        reads[0].len() > 0,
{
    assert forall|i: int| 0 <= i < reads.skip(1).len() implies (#[trigger] reads.skip(1)[i]).len()
        > 0 by {
        assert(reads.skip(1)[i] == reads[i + 1]);
    }
}

/// The run of frames from the payload of a chunk on, for a stream that is
/// on track.
pub proof fn lemma_payload_run(
    buffered: Seq<u8>,
    state: ChunkRead,
    x: Seq<u8>,
    reads: Seq<Seq<u8>>,
    ps: Seq<Seq<u8>>,
    extra: Seq<u8>,
    limit: int,
)
    requires
        all_nonempty(reads),
        is_chunk_list(ps),
        chunks_fit(ps, limit),
        x.len() <= buffered.len(),
        chunk_step(buffered, state) == payload_step(x, (ps[0].len() + 2) as usize),
        x + concat(reads) == ps[0] + crlf() + chunked_wire(ps.skip(1)) + extra,
    ensures
        run_frames(buffered, ReadBodyState::Chunked(state), reads, limit) == chunk_frames(ps),
    decreases reads.len(), x.len(), 0nat,
{
    let head = ps[0];
    let len = (head.len() + 2) as usize;
    let total = x + concat(reads);
    assert(crlf().len() == 2);
    assert(total.len() >= len);
    if x.len() < len {
        assert(reads.len() > 0) by {
            if reads.len() == 0 {
                assert(total =~= x);
            }
        }
        lemma_all_nonempty_tail(reads);
        assert(x + reads[0] + concat(reads.skip(1)) =~= total);
        lemma_chunked_run(x + reads[0], ChunkRead::Payload { len }, reads.skip(1), ps, extra, limit);
    } else {
        assert(x.subrange(len - 2, len as int) =~= crlf()) by {
            assert(x[len - 2] == total[len - 2]);
            assert(x[len - 1] == total[len - 1]);
            assert(total[len - 2] == 13);
            assert(total[len - 1] == 10);
        }
        assert(x.take(len - 2) =~= head) by {
            assert forall|k: int| 0 <= k < len - 2 implies x[k] == head[k] by {
                assert(x[k] == total[k]);
            }
        }
        let rest = x.skip(len as int);
        if head.len() == 0 {
            assert(ps.len() == 1);
            assert(chunk_frames(ps) =~= seq![NextView { frame: Ok(head), end: true }]);
        } else {
            lemma_chunk_list_tail(ps);
            assert(rest + concat(reads) =~= chunked_wire(ps.skip(1)) + extra) by {
                assert(rest + concat(reads) =~= total.skip(len as int));
            }
            lemma_chunked_run(rest, ChunkRead::start(), reads, ps.skip(1), extra, limit);
        }
    }
}

/// The run of frames of a chunked body, for a stream that is on track: the
/// frames are the chunks.
pub proof fn lemma_chunked_run(
    buffered: Seq<u8>,
    state: ChunkRead,
    reads: Seq<Seq<u8>>,
    ps: Seq<Seq<u8>>,
    extra: Seq<u8>,
    limit: int,
)
    requires
        all_nonempty(reads),
        on_track(buffered, state, buffered + concat(reads), ps, extra),
        chunks_fit(ps, limit),
    ensures
        run_frames(buffered, ReadBodyState::Chunked(state), reads, limit) == chunk_frames(ps),
    decreases reads.len(), buffered.len(), 1nat,
{
    let total = buffered + concat(reads);
    let head = ps[0];
    assert(crlf().len() == 2);
    match state {
        ChunkRead::Payload { len } => {
            lemma_payload_run(buffered, state, buffered, reads, ps, extra, limit);
        },
        ChunkRead::SizeLine { cursor } => {
            let digits = format_number(head.len(), 16);
            let d = digits.len() as int;
            lemma_format_number(head.len(), 16);
            lemma_parse_format(head.len(), 16);
            let start = scan_start(cursor as int, 2);
            assert(total == digits + crlf() + head + crlf() + chunked_wire(ps.skip(1)) + extra);
            assert(total.len() >= d + 2);
            assert forall|j: int| 0 <= j < d implies total[j] != 13 by {
                assert(total[j] == digits[j]);
            }
            assert(total[d] == 13 && total[d + 1] == 10);
            if buffered.len() < d + 2 {
                assert forall|j: int| 0 <= j implies !occurs_at(buffered, crlf(), j) by {
                    if occurs_at(buffered, crlf(), j) {
                        assert(buffered.subrange(j, j + 2)[0] == 13);
                        assert(buffered[j] == total[j]);
                    }
                }
                lemma_find_from(buffered, crlf(), start);
                assert(find_from(buffered, crlf(), start) is None);
                assert(reads.len() > 0) by {
                    if reads.len() == 0 {
                        assert(total =~= buffered);
                    }
                }
                lemma_all_nonempty_tail(reads);
                let longer = buffered + reads[0];
                assert(longer + concat(reads.skip(1)) =~= total);
                assert forall|j: int| 0 <= j < scan_start(buffered.len() as int, 2) implies !occurs_at(
                    longer,
                    crlf(),
                    j,
                ) by {
                    lemma_occurs_at_append(buffered, reads[0], crlf(), j);
                }
                lemma_chunked_run(
                    longer,
                    ChunkRead::SizeLine { cursor: buffered.len() as usize },
                    reads.skip(1),
                    ps,
                    extra,
                    limit,
                );
            } else {
                assert(buffered.subrange(d, d + 2) =~= crlf()) by {
                    assert(buffered[d] == total[d]);
                    assert(buffered[d + 1] == total[d + 1]);
                }
                assert(occurs_at(buffered, crlf(), d));
                assert forall|j: int| 0 <= j < d implies !occurs_at(buffered, crlf(), j) by {
                    if occurs_at(buffered, crlf(), j) {
                        assert(buffered.subrange(j, j + 2)[0] == 13);
                        assert(buffered[j] == total[j]);
                    }
                }
                assert(start <= d);
                lemma_find_from_is(buffered, crlf(), start, d);
                assert(buffered.take(d) =~= digits) by {
                    assert forall|k: int| 0 <= k < d implies buffered[k] == digits[k] by {
                        assert(buffered[k] == total[k]);
                    }
                }
                assert(chunk_total(digits) == Some((head.len() + 2) as usize));
                let x = buffered.skip(d + 2);
                assert(x + concat(reads) =~= head + crlf() + chunked_wire(ps.skip(1)) + extra) by {
                    assert(x + concat(reads) =~= total.skip(d + 2));
                }
                lemma_payload_run(buffered, state, x, reads, ps, extra, limit);
            }
        },
    }
}

/// How the read of one chunk ends when it is run over a stream.
pub enum ChunkRun {
    /// The chunk came out: its payload, what stays buffered behind it, and
    /// the reads that were not needed.
    Chunk { payload: Seq<u8>, rest: Seq<u8>, left: Seq<Seq<u8>> },
    /// The read failed.
    Failed(Error),
}

/// The read of one chunk run over a stream, with a buffer limited to
/// `limit` bytes: the next read is taken while the chunk is not whole.
pub open spec fn run_chunk(
    buffered: Seq<u8>,
    state: ChunkRead,
    reads: Seq<Seq<u8>>,
    limit: int,
) -> ChunkRun
    decreases reads.len(),
{
    match chunk_step(buffered, state) {
        ChunkOutcome::Chunk { payload, rest } => ChunkRun::Chunk { payload, rest, left: reads },
        ChunkOutcome::Invalid { error, rest } => ChunkRun::Failed(error),
        ChunkOutcome::NeedRead { state: s, rest } => if rest.len() >= limit {
            ChunkRun::Failed(Error::TooLargeInput)
        } else if reads.len() == 0 || reads[0].len() == 0 {
            ChunkRun::Failed(Error::unexpected_eof())
        } else {
            run_chunk(rest + reads[0], s, reads.skip(1), limit)
        },
    }
}

/// What the read of a chunk in the given state has to find in the stream
/// for the payload `p` to come out and `extra` to follow it.
pub open spec fn chunk_ahead(
    buffered: Seq<u8>,
    state: ChunkRead,
    total: Seq<u8>,
    p: Seq<u8>,
    extra: Seq<u8>,
) -> bool {
    &&& p.len() + 2 <= usize::MAX
    &&& match state {
        ChunkRead::SizeLine { cursor } => {
            &&& total == chunk_frame(p) + extra
            &&& cursor <= buffered.len()
            &&& forall|j: int| 0 <= j < scan_start(cursor as int, 2) ==> !occurs_at(buffered, crlf(), j)
        },
        ChunkRead::Payload { len } => {
            &&& len == p.len() + 2
            &&& total == p + crlf() + extra
        },
    }
}

/// The read of one chunk does not depend on how the stream is cut: where
/// the stream goes on with a chunk's size line, its payload and the line
/// ending, the payload comes out whole, empty only for the chunk of length
/// zero; exactly the chunk's bytes leave the stream, and what follows them
/// stays, buffered or yet to be read. This holds for a chunk that finds
/// room in the buffer.
pub proof fn lemma_chunk_any_cut(
    buffered: Seq<u8>,
    state: ChunkRead,
    reads: Seq<Seq<u8>>,
    p: Seq<u8>,
    extra: Seq<u8>,
    limit: int,
)
    requires
        all_nonempty(reads),
        chunk_ahead(buffered, state, buffered + concat(reads), p, extra),
        format_number(p.len(), 16).len() + 2 <= limit,
        p.len() + 2 <= limit,
    ensures
        run_chunk(buffered, state, reads, limit) matches ChunkRun::Chunk { payload, rest, left }
            && payload == p && rest + concat(left) == extra,
    decreases reads.len(), buffered.len(), (if state is SizeLine {
        1nat
    } else {
        0nat
    }),
{
    let total = buffered + concat(reads);
    assert(crlf().len() == 2);
    match state {
        ChunkRead::Payload { len } => {
            assert(total.len() >= len);
            if buffered.len() < len {
                assert(reads.len() > 0) by {
                    if reads.len() == 0 {
                        assert(total =~= buffered);
                    }
                }
                lemma_all_nonempty_tail(reads);
                assert(buffered + reads[0] + concat(reads.skip(1)) =~= total);
                lemma_chunk_any_cut(buffered + reads[0], state, reads.skip(1), p, extra, limit);
            } else {
                assert(buffered.subrange(len - 2, len as int) =~= crlf()) by {
                    assert(buffered[len - 2] == total[len - 2]);
                    assert(buffered[len - 1] == total[len - 1]);
                    assert(total[len - 2] == 13);
                    assert(total[len - 1] == 10);
                }
                assert(buffered.take(len - 2) =~= p) by {
                    assert forall|k: int| 0 <= k < len - 2 implies buffered[k] == p[k] by {
                        assert(buffered[k] == total[k]);
                    }
                }
                assert(buffered.skip(len as int) + concat(reads) =~= extra) by {
                    assert(buffered.skip(len as int) + concat(reads) =~= total.skip(len as int));
                }
            }
        },
        ChunkRead::SizeLine { cursor } => {
            let digits = format_number(p.len(), 16);
            let d = digits.len() as int;
            lemma_format_number(p.len(), 16);
            lemma_parse_format(p.len(), 16);
            let start = scan_start(cursor as int, 2);
            assert(total == digits + crlf() + p + crlf() + extra);
            assert(total.len() >= d + 2);
            assert forall|j: int| 0 <= j < d implies total[j] != 13 by {
                assert(total[j] == digits[j]);
            }
            assert(total[d] == 13 && total[d + 1] == 10);
            if buffered.len() < d + 2 {
                assert forall|j: int| 0 <= j implies !occurs_at(buffered, crlf(), j) by {
                    if occurs_at(buffered, crlf(), j) {
                        assert(buffered.subrange(j, j + 2)[0] == 13);
                        assert(buffered[j] == total[j]);
                    }
                }
                lemma_find_from(buffered, crlf(), start);
                assert(find_from(buffered, crlf(), start) is None);
                assert(reads.len() > 0) by {
                    if reads.len() == 0 {
                        assert(total =~= buffered);
                    }
                }
                lemma_all_nonempty_tail(reads);
                let longer = buffered + reads[0];
                assert(longer + concat(reads.skip(1)) =~= total);
                assert forall|j: int| 0 <= j < scan_start(buffered.len() as int, 2) implies !occurs_at(
                    longer,
                    crlf(),
                    j,
                ) by {
                    lemma_occurs_at_append(buffered, reads[0], crlf(), j);
                }
                lemma_chunk_any_cut(
                    longer,
                    ChunkRead::SizeLine { cursor: buffered.len() as usize },
                    reads.skip(1),
                    p,
                    extra,
                    limit,
                );
            } else {
                assert(buffered.subrange(d, d + 2) =~= crlf()) by {
                    assert(buffered[d] == total[d]);
                    assert(buffered[d + 1] == total[d + 1]);
                }
                assert(occurs_at(buffered, crlf(), d));
                assert forall|j: int| 0 <= j < d implies !occurs_at(buffered, crlf(), j) by {
                    if occurs_at(buffered, crlf(), j) {
                        assert(buffered.subrange(j, j + 2)[0] == 13);
                        assert(buffered[j] == total[j]);
                    }
                }
                assert(start <= d);
                lemma_find_from_is(buffered, crlf(), start, d);
                assert(buffered.take(d) =~= digits) by {
                    assert forall|k: int| 0 <= k < d implies buffered[k] == digits[k] by {
                        assert(buffered[k] == total[k]);
                    }
                }
                let len = (p.len() + 2) as usize;
                assert(chunk_total(digits) == Some(len));
                let x = buffered.skip(d + 2);
                assert(x + concat(reads) =~= p + crlf() + extra) by {
                    assert(x + concat(reads) =~= total.skip(d + 2));
                }
                assert(chunk_step(buffered, state) == payload_step(x, len));
                // the payload is read from what stays behind the size line
                lemma_chunk_any_cut(x, ChunkRead::Payload { len }, reads, p, extra, limit);
                assert(chunk_step(x, ChunkRead::Payload { len }) == payload_step(x, len));
            }
        },
    }
}

/// Chunked framing: from a stream that holds the chunks of a body in the
/// chunked coding, the frames that come out are the chunks that went in,
/// each whole and in order, and then the empty last frame. This holds
/// however the stream is cut into reads, and whatever follows the body, for
/// chunks that each find room in the buffer.
pub proof fn lemma_chunked_frames(
    chunks: Seq<Seq<u8>>,
    reads: Seq<Seq<u8>>,
    extra: Seq<u8>,
    limit: int,
)
    requires
        all_nonempty(reads),
        forall|i: int| 0 <= i < chunks.len() ==> 0 < (#[trigger] chunks[i]).len() <= usize::MAX - 2,
        chunks_fit(chunks.push(Seq::<u8>::empty()), limit),
        concat(reads) == chunked_wire(chunks.push(Seq::<u8>::empty())) + extra,
    ensures
        run_frames(Seq::<u8>::empty(), ReadBodyState::Chunked(ChunkRead::start()), reads, limit)
            == chunk_frames(chunks.push(Seq::<u8>::empty())),
        delivers_whole(chunk_frames(chunks.push(Seq::<u8>::empty()))),
{
    let ps = chunks.push(Seq::<u8>::empty());
    assert(is_chunk_list(ps)) by {
        assert forall|i: int| 0 <= i < ps.len() - 1 implies (#[trigger] ps[i]).len() > 0 by {
            assert(ps[i] == chunks[i]);
        }
        assert forall|i: int| 0 <= i < ps.len() implies (#[trigger] ps[i]).len() + 2
            <= usize::MAX by {
            if i < chunks.len() {
                assert(ps[i] == chunks[i]);
            }
        }
    }
    assert(Seq::<u8>::empty() + concat(reads) =~= concat(reads));
    lemma_chunked_run(Seq::<u8>::empty(), ChunkRead::start(), reads, ps, extra, limit);
    let frames = chunk_frames(ps);
    assert(frames.last() == last_frame());
    assert forall|i: int| 0 <= i < frames.len() - 1 implies {
        &&& (#[trigger] frames[i]).frame matches Ok(b)
        &&& b.len() > 0
        &&& !frames[i].end
    } by {
        assert(ps[i] == chunks[i]);
    }
}

} // verus!
