//! What holds of every run of the connection's state machine, whatever its
//! driver reports and however the stream is cut into reads.

use crate::client::{fresh, step, FeedState, Phase, SpecAction, SpecEvent};
use crate::errors::Error;
use crate::framing::{
    delimiter_free, framable, frames, lemma_delimiter_free, lemma_frames_append,
    lemma_frames_of_wire, lemma_scan, residue, scan, wire,
};
use vstd::prelude::*;

verus! {

/// A run of the machine so far.
pub struct Trace {
    /// The machine's state.
    pub state: FeedState,
    /// Every byte that it has taken in, in order.
    pub received: Seq<u8>,
    /// Every frame that it has handed out to be forwarded, in order.
    pub forwarded: Seq<Seq<u8>>,
    /// What it last asked of its driver.
    pub asked: SpecAction,
}

/// A connection before its first event: it waits for its first read.
pub open spec fn start() -> Trace {
    Trace {
        state: fresh(),
        received: Seq::empty(),
        forwarded: Seq::empty(),
        asked: SpecAction::Read,
    }
}

/// The run `t` after one more event. Bytes count as received when a
/// streaming connection takes them in.
pub open spec fn record(t: Trace, event: SpecEvent) -> Trace {
    let (state, action) = step(t.state, event);
    Trace {
        state,
        received: match (t.state.phase, event) {
            (Phase::Streaming, SpecEvent::Received(bytes)) => t.received + bytes,
            _ => t.received,
        },
        forwarded: match action {
            SpecAction::Forward(frame) => t.forwarded.push(frame),
            _ => t.forwarded,
        },
        asked: action,
    }
}

/// The run `t` after `events`, first to last.
pub open spec fn run(t: Trace, events: Seq<SpecEvent>) -> Trace
    decreases events.len(),
{
    if events.len() == 0 {
        t
    } else {
        record(run(t, events.drop_last()), events.last())
    }
}

/// Nothing is lost, repeated or reordered: the frames handed out so far,
/// followed by the frames still in the accumulator, are the frames of all
/// the bytes received, and the accumulator ends with the same incomplete
/// frame as they do.
pub open spec fn conserved(t: Trace) -> bool {
    &&& frames(t.received) == t.forwarded + frames(t.state.accumulator)
    &&& residue(t.received) == residue(t.state.accumulator)
}

/// A connection that asks for a read holds no complete frame.
pub open spec fn settled(t: Trace) -> bool {
    t.asked == SpecAction::Read ==> t.state.phase == Phase::Streaming && delimiter_free(
        t.state.accumulator,
    )
}

/// Taking the next frame out of an accumulator keeps a run conserved and
/// settled.
proof fn lemma_extract_conserves(t: Trace, received: Seq<u8>, held: Seq<u8>)
    requires
        frames(received) == t.forwarded + frames(held),
        residue(received) == residue(held),
    ensures
        ({
            let (frame, rest) = scan(held);
            let forwarded = match frame {
                Some(f) => t.forwarded.push(f),
                None => t.forwarded,
            };
            &&& frames(received) == forwarded + frames(rest)
            &&& residue(received) == residue(rest)
            &&& frame is None ==> delimiter_free(rest)
        }),
{
    lemma_scan(held);
    let (frame, rest) = scan(held);
    match frame {
        Some(f) => {
            assert(t.forwarded + (seq![f] + frames(rest)) =~= t.forwarded.push(f) + frames(rest));
        },
        None => {
            lemma_delimiter_free(rest);
        },
    }
}

/// One event keeps a run conserved and settled.
pub proof fn lemma_record_conserves(t: Trace, event: SpecEvent)
    requires
        conserved(t),
    ensures
        conserved(record(t, event)),
        settled(record(t, event)),
{
    let after = record(t, event);
    let held = t.state.accumulator;
    match t.state.phase {
        Phase::Closed(_) => {},
        Phase::Streaming => match event {
            SpecEvent::Failed(_) => {},
            SpecEvent::Received(bytes) => {
                if bytes.len() > 0 {
                    lemma_frames_append(t.received, bytes);
                    lemma_frames_append(held, bytes);
                    assert(frames(t.received + bytes) =~= t.forwarded + frames(held + bytes));
                    lemma_extract_conserves(t, t.received + bytes, held + bytes);
                }
            },
            SpecEvent::Forwarded => {
                lemma_extract_conserves(t, t.received, held);
            },
        },
    }
}

/// Every run from a fresh connection is conserved and settled, whatever the
/// events.
pub proof fn lemma_run_conserves(events: Seq<SpecEvent>)
    ensures
        conserved(run(start(), events)),
        settled(run(start(), events)),
    decreases events.len(),
{
    if events.len() == 0 {
        assert(frames(Seq::<u8>::empty()) =~= Seq::<Seq<u8>>::empty() + frames(
            Seq::<u8>::empty(),
        ));
    } else {
        lemma_run_conserves(events.drop_last());
        lemma_record_conserves(run(start(), events.drop_last()), events.last());
    }
}

/// Whenever a connection asks for a read, it has handed out exactly the
/// frames of all the bytes received so far, in their order, and its
/// accumulator holds the incomplete frame that they end with.
pub proof fn lemma_read_means_all_forwarded(events: Seq<SpecEvent>)
    requires
        run(start(), events).asked == SpecAction::Read,
    ensures
        run(start(), events).forwarded == frames(run(start(), events).received),
        run(start(), events).state.accumulator == residue(run(start(), events).received),
{
    let t = run(start(), events);
    lemma_run_conserves(events);
    lemma_delimiter_free(t.state.accumulator);
    assert(t.forwarded + Seq::<Seq<u8>>::empty() =~= t.forwarded);
}

/// A streaming connection that takes its next frame hands out the first
/// complete frame of its accumulator, or asks for a read when it holds none.
pub proof fn lemma_forwards_first_frame(s: FeedState)
    requires
        s.phase == Phase::Streaming,
    ensures
        step(s, SpecEvent::Forwarded).1 == (if frames(s.accumulator).len() == 0 {
            SpecAction::Read
        } else {
            SpecAction::Forward(frames(s.accumulator)[0])
        }),
{
    lemma_scan(s.accumulator);
}

/// A failure closes a streaming connection for the reason reported. The
/// frame that failed is the last one handed out: the accumulator keeps
/// what it held then, and whatever the driver reports afterwards, no frame
/// is handed out and the answer is to close for that same reason.
pub proof fn lemma_failure_is_final(t: Trace, reason: Error, later: Seq<SpecEvent>)
    requires
        t.state.phase == Phase::Streaming,
    ensures
        ({
            let failed = record(t, SpecEvent::Failed(reason));
            let after = run(failed, later);
            &&& failed.asked == SpecAction::Close(reason)
            &&& after.asked == SpecAction::Close(reason)
            &&& after.state.phase == Phase::Closed(reason)
            &&& after.state.accumulator == t.state.accumulator
            &&& after.forwarded == t.forwarded
            &&& after.received == t.received
        }),
{
    lemma_closed_is_final(record(t, SpecEvent::Failed(reason)), reason, later);
}

/// A closed connection stays as it is: no event changes its state, takes
/// bytes in or lets a frame out, and the answer to each is to close for the
/// reason it closed for.
pub proof fn lemma_closed_is_final(t: Trace, reason: Error, later: Seq<SpecEvent>)
    requires
        t.state.phase == Phase::Closed(reason),
    ensures
        run(t, later).state == t.state,
        run(t, later).forwarded == t.forwarded,
        run(t, later).received == t.received,
        later.len() > 0 ==> run(t, later).asked == SpecAction::Close(reason),
    decreases later.len(),
{
    if later.len() > 0 {
        lemma_closed_is_final(t, reason, later.drop_last());
    }
}

/// `n` frames reported as forwarded, one after the other.
pub open spec fn acknowledgements(n: nat) -> Seq<SpecEvent> {
    Seq::new(n, |i: int| SpecEvent::Forwarded)
}

/// The run `t` after a read that brought `chunk`, and after `n` of the
/// frames handed out since were reported as forwarded.
pub open spec fn after_read(t: Trace, chunk: Seq<u8>, n: nat) -> Trace {
    run(record(t, SpecEvent::Received(chunk)), acknowledgements(n))
}

/// The run of a driver that reads `chunks` one after the other from a fresh
/// connection and reports every frame handed out as forwarded before it
/// reads again.
pub open spec fn drive(chunks: Seq<Seq<u8>>) -> Trace
    decreases chunks.len(),
{
    if chunks.len() == 0 {
        start()
    } else {
        let before = drive(chunks.drop_last());
        let chunk = chunks.last();
        after_read(before, chunk, frames(before.state.accumulator + chunk).len())
    }
}

/// The stream that `chunks` are cut from: the chunks one after the other.
pub open spec fn joined(chunks: Seq<Seq<u8>>) -> Seq<u8>
    decreases chunks.len(),
{
    if chunks.len() == 0 {
        Seq::empty()
    } else {
        joined(chunks.drop_last()) + chunks.last()
    }
}

/// No chunk of `chunks` is empty: no read found the stream ended.
pub open spec fn all_bring_bytes(chunks: Seq<Seq<u8>>) -> bool {
    forall|i: int| 0 <= i < chunks.len() ==> (#[trigger] chunks[i]).len() > 0
}

/// After a read, the frames of the accumulator come out one for each
/// acknowledgement, in their order: with `n` of them acknowledged, the
/// connection has handed out the frame after those, or asks for the next
/// read when all are out. Then the accumulator holds the incomplete frame
/// that the bytes end with.
pub proof fn lemma_read_is_served(t: Trace, chunk: Seq<u8>, n: nat)
    requires
        t.state.phase == Phase::Streaming,
        chunk.len() > 0,
        n <= frames(t.state.accumulator + chunk).len(),
    ensures
        ({
            let held = t.state.accumulator + chunk;
            let after = after_read(t, chunk, n);
            let out: int = if n < frames(held).len() {
                n as int + 1
            } else {
                n as int
            };
            &&& after.state.phase == Phase::Streaming
            &&& after.received == t.received + chunk
            &&& after.forwarded == t.forwarded + frames(held).take(out)
            &&& frames(after.state.accumulator) == frames(held).skip(out)
            &&& residue(after.state.accumulator) == residue(held)
            &&& n < frames(held).len() ==> after.asked == SpecAction::Forward(frames(held)[n as int])
            &&& n == frames(held).len() ==> after.asked == SpecAction::Read && delimiter_free(
                after.state.accumulator,
            )
        }),
    decreases n,
{
    let held = t.state.accumulator + chunk;
    let fs = frames(held);
    let read = record(t, SpecEvent::Received(chunk));
    if n == 0 {
        assert(acknowledgements(0) =~= Seq::<SpecEvent>::empty());
        lemma_scan(held);
        match scan(held).0 {
            Some(f) => {
                assert(fs.take(1) =~= seq![f]);
                assert(t.forwarded.push(f) =~= t.forwarded + fs.take(1));
                assert(fs.skip(1) =~= frames(scan(held).1));
            },
            None => {
                lemma_delimiter_free(scan(held).1);
                assert(t.forwarded + fs.take(0) =~= t.forwarded);
                assert(fs.skip(0) =~= fs);
            },
        }
    } else {
        let m = (n - 1) as nat;
        lemma_read_is_served(t, chunk, m);
        let before = after_read(t, chunk, m);
        assert(acknowledgements(n).drop_last() =~= acknowledgements(m));
        assert(acknowledgements(n).last() == SpecEvent::Forwarded);
        assert(after_read(t, chunk, n) == record(before, SpecEvent::Forwarded));
        let left = before.state.accumulator;
        lemma_scan(left);
        assert(frames(left) == fs.skip(n as int));
        match scan(left).0 {
            Some(f) => {
                let tail = frames(scan(left).1);
                assert((seq![f] + tail)[0] == f);
                assert((seq![f] + tail).skip(1) =~= tail);
                assert(fs.skip(n as int).skip(1) =~= fs.skip(n as int + 1));
                assert(fs.take(n as int + 1) =~= fs.take(n as int).push(f));
                assert((t.forwarded + fs.take(n as int)).push(f) =~= t.forwarded + fs.take(
                    n as int,
                ).push(f));
            },
            None => {
                lemma_delimiter_free(scan(left).1);
                assert(fs.skip(n as int) =~= Seq::<Seq<u8>>::empty());
            },
        }
    }
}

/// A driver that reads a stream in chunks and acknowledges every frame ends
/// each read asked to read again, with exactly the frames of the whole
/// stream handed out, in their order, and with the stream's incomplete last
/// frame in the accumulator.
pub proof fn lemma_drive_forwards_the_frames(chunks: Seq<Seq<u8>>)
    requires
        all_bring_bytes(chunks),
    ensures
        drive(chunks).state.phase == Phase::Streaming,
        drive(chunks).asked == SpecAction::Read,
        drive(chunks).received == joined(chunks),
        drive(chunks).forwarded == frames(joined(chunks)),
        drive(chunks).state.accumulator == residue(joined(chunks)),
    decreases chunks.len(),
{
    if chunks.len() == 0 {
        assert(frames(Seq::<u8>::empty()) =~= Seq::<Seq<u8>>::empty());
    } else {
        let earlier = chunks.drop_last();
        let chunk = chunks.last();
        lemma_drive_forwards_the_frames(earlier);
        let before = drive(earlier);
        let held = before.state.accumulator + chunk;
        let fs = frames(held);
        lemma_read_is_served(before, chunk, fs.len());
        lemma_frames_append(joined(earlier), chunk);
        let after = drive(chunks);
        lemma_delimiter_free(after.state.accumulator);
        assert(fs.take(fs.len() as int) =~= fs);
    }
}

/// How a stream is cut into reads does not matter: read in one way or in
/// another, byte by byte or all at once, the same frames come out in the
/// same order and the same bytes stay in the accumulator.
pub proof fn lemma_chunking_does_not_matter(one: Seq<Seq<u8>>, other: Seq<Seq<u8>>)
    requires
        all_bring_bytes(one),
        all_bring_bytes(other),
        joined(one) == joined(other),
    ensures
        drive(one).forwarded == drive(other).forwarded,
        drive(one).state.accumulator == drive(other).state.accumulator,
{
    lemma_drive_forwards_the_frames(one);
    lemma_drive_forwards_the_frames(other);
}

/// A stream made of well-formed frames, each followed by a delimiter, comes
/// out as those frames in their order, however it is cut into reads, and
/// leaves the accumulator empty.
pub proof fn lemma_wire_comes_out(chunks: Seq<Seq<u8>>, fs: Seq<Seq<u8>>)
    requires
        all_bring_bytes(chunks),
        framable(fs),
        joined(chunks) == wire(fs),
    ensures
        drive(chunks).forwarded == fs,
        drive(chunks).state.accumulator == Seq::<u8>::empty(),
{
    lemma_drive_forwards_the_frames(chunks);
    lemma_frames_of_wire(fs);
}

} // verus!
