//! The connection: the accumulator of received bytes, the scan cursor, and the
//! state machine that turns what happened on the stream into what to do next.
//!
//! The machine does no I/O. Its driver reads from the stream, decodes and
//! sends frames, and reports each outcome as an [`Event`]; the machine answers
//! with the next [`Action`].

use crate::accumulator::Accumulator;
use crate::commands::{to_uppercase, uppercase, watch_bytes, watch_command};
use crate::errors::Error;
use crate::framing::{delimiter_free, lemma_delimiter_offset_unique, scan, DELIMITER};
use crate::scanner::{lookback, Scanner};
use vstd::prelude::*;

verus! {

/// Where a connection stands once its handshake is written.
#[derive(Clone, Copy, Debug, PartialEq, Eq, Structural)]
pub enum Phase {
    /// Reading from the stream and forwarding frames.
    Streaming,
    /// Stopped for good, for the reason given.
    Closed(Error),
}

/// What the driver reports to the machine.
#[derive(Debug, PartialEq, Eq)]
pub enum Event {
    /// One read from the stream returned these bytes. No bytes at all means
    /// that the stream has ended.
    Received(Vec<u8>),
    /// The frame last handed out was decoded and the consumer accepted it.
    Forwarded,
    /// A read, a decode or a send failed.
    Failed(Error),
}

/// What the machine asks of the driver.
#[derive(Debug, PartialEq, Eq)]
pub enum Action {
    /// Read once from the stream and report what came.
    Read,
    /// Decode this frame, send the message to the consumer, and report the
    /// outcome. The frame has left the accumulator, its delimiter with it.
    Forward(Vec<u8>),
    /// Stop: the connection is closed for this reason.
    Close(Error),
}

/// An [`Event`] as contracts see it.
pub enum SpecEvent {
    Received(Seq<u8>),
    Forwarded,
    Failed(Error),
}

/// An [`Action`] as contracts see it.
pub enum SpecAction {
    Read,
    Forward(Seq<u8>),
    Close(Error),
}

impl View for Event {
    type V = SpecEvent;

    open spec fn view(&self) -> SpecEvent {
        match *self {
            Event::Received(bytes) => SpecEvent::Received(bytes@),
            Event::Forwarded => SpecEvent::Forwarded,
            Event::Failed(reason) => SpecEvent::Failed(reason),
        }
    }
}

impl View for Action {
    type V = SpecAction;

    open spec fn view(&self) -> SpecAction {
        match *self {
            Action::Read => SpecAction::Read,
            Action::Forward(frame) => SpecAction::Forward(frame@),
            Action::Close(reason) => SpecAction::Close(reason),
        }
    }
}

/// A connection as contracts see it.
pub struct FeedState {
    /// Streaming, or closed and why.
    pub phase: Phase,
    /// The bytes received that have not left as frames or been discarded as
    /// empty frames.
    pub accumulator: Seq<u8>,
    /// The scan cursor: the offset into the accumulator before which the
    /// last scan met no delimiter.
    pub cursor: nat,
}

/// A connection that has just written its handshake: streaming, nothing
/// received yet.
pub open spec fn fresh() -> FeedState {
    FeedState { phase: Phase::Streaming, accumulator: Seq::empty(), cursor: 0 }
}

/// The state `s` closed for `reason`. The accumulator and the cursor stay as
/// they are.
pub open spec fn closed(s: FeedState, reason: Error) -> (FeedState, SpecAction) {
    (
        FeedState { phase: Phase::Closed(reason), accumulator: s.accumulator, cursor: s.cursor },
        SpecAction::Close(reason),
    )
}

/// A streaming connection whose accumulator holds `accumulated` takes its
/// next frame. It forwards the first complete non-empty frame, which leaves
/// the accumulator with its delimiter and with the empty frames before it,
/// and the cursor goes back to the start. When there is no such frame it
/// asks for a read, and the cursor rests on the last byte.
pub open spec fn extract(accumulated: Seq<u8>) -> (FeedState, SpecAction) {
    let (frame, rest) = scan(accumulated);
    match frame {
        Some(f) => (
            FeedState { phase: Phase::Streaming, accumulator: rest, cursor: 0 },
            SpecAction::Forward(f),
        ),
        None => (
            FeedState { phase: Phase::Streaming, accumulator: rest, cursor: lookback(rest.len()) },
            SpecAction::Read,
        ),
    }
}

/// The machine's one step: the state after `event`, and what the driver is
/// to do next.
///
/// A closed connection stays closed and keeps its reason. A streaming one
/// closes on any failure and on a read of no bytes; it appends what a read
/// brought; and after a read or a forwarded frame it takes its next frame.
pub open spec fn step(s: FeedState, event: SpecEvent) -> (FeedState, SpecAction) {
    match s.phase {
        Phase::Closed(reason) => (s, SpecAction::Close(reason)),
        Phase::Streaming => match event {
            SpecEvent::Failed(reason) => closed(s, reason),
            SpecEvent::Received(bytes) => if bytes.len() == 0 {
                closed(s, Error::Tcp)
            } else {
                extract(s.accumulator + bytes)
            },
            SpecEvent::Forwarded => extract(s.accumulator),
        },
    }
}

/// One connection to the feed, from the moment its handshake is written.
pub struct IQFeed {
    scanner: Scanner,
    buffer: Accumulator,
    scan_read: usize,
    phase: Phase,
}

impl View for IQFeed {
    type V = FeedState;

    closed spec fn view(&self) -> FeedState {
        FeedState {
            phase: self.phase,
            accumulator: self.buffer@,
            cursor: self.scan_read as nat,
        }
    }
}

impl IQFeed {
    /// The cursor stands within the accumulator, with no delimiter before
    /// it.
    #[verifier::type_invariant]
    spec fn well_formed(self) -> bool {
        &&& self.scan_read <= self.buffer@.len()
        &&& delimiter_free(self.buffer@.take(self.scan_read as int))
    }

    /// A connection that has just written its handshake.
    pub fn new() -> (feed: IQFeed)
        ensures
            feed@ == fresh(),
    {
        IQFeed {
            scanner: Scanner::new(),
            buffer: Accumulator::new(),
            scan_read: 0,
            phase: Phase::Streaming,
        }
    }

    /// The connection's phase.
    pub fn phase(&self) -> (phase: Phase)
        ensures
            phase == self@.phase,
    {
        self.phase
    }

    /// The bytes in the accumulator.
    pub fn accumulator(&self) -> (bytes: &[u8])
        ensures
            bytes@ == self@.accumulator,
    {
        self.buffer.as_slice()
    }

    /// The scan cursor. It stands within the accumulator, and no byte
    /// before it is a delimiter.
    pub fn scan_cursor(&self) -> (cursor: usize)
        ensures
            cursor == self@.cursor,
            cursor <= self@.accumulator.len(),
            delimiter_free(self@.accumulator.take(cursor as int)),
    {
        proof {
            use_type_invariant(self);
        }
        self.scan_read
    }

    /// The command that asks the feed to watch the trades of `symbol`. The
    /// symbol is sent in upper case. The command may be written to the
    /// stream at any time; no acknowledgment is tracked.
    pub fn watch_trades(&self, symbol: &str) -> (command: Vec<u8>)
        ensures
            command@ == watch_bytes(uppercase(symbol@)),
    {
        let upper = to_uppercase(symbol);
        watch_command(upper.as_str())
    }

    /// Appends `incoming` to the accumulator and takes the next frame out
    /// of it.
    fn advance(&mut self, incoming: &[u8]) -> (action: Action)
        requires
            old(self).phase == Phase::Streaming,
        ensures
            (final(self)@, action@) == extract(old(self)@.accumulator + incoming@),
    {
        proof {
            use_type_invariant(&*self);
        }
        let mut cursor = self.scan_read;
        self.scan_read = 0;
        let mut buffer = Accumulator::new();
        std::mem::swap(&mut buffer, &mut self.buffer);
        buffer.append(incoming);
        let ghost accumulated = buffer@;
        assert(accumulated.take(cursor as int) =~= old(self).buffer@.take(cursor as int));
        let mut frame: Option<Vec<u8>> = None;
        loop
            invariant_except_break
                cursor <= buffer@.len(),
                delimiter_free(buffer@.take(cursor as int)),
                scan(buffer@) == scan(accumulated),
                frame is None,
            invariant
                self.phase == Phase::Streaming,
                self.scan_read == 0,
                self.buffer@.len() == 0,
            ensures
                cursor <= buffer@.len(),
                delimiter_free(buffer@.take(cursor as int)),
                match frame {
                    Some(f) => scan(accumulated) == (Some(f@), buffer@) && cursor == 0,
                    None => scan(accumulated) == (None::<Seq<u8>>, buffer@) && cursor == lookback(
                        buffer@.len(),
                    ),
                },
            decreases buffer@.len(),
        {
            let ghost scanned = buffer@.take(cursor as int);
            match self.scanner.find_next(&buffer, &mut cursor) {
                None => {
                    proof {
                        assert forall|i: int| 0 <= i < buffer@.len() implies buffer@[i]
                            != DELIMITER by {
                            if i < scanned.len() {
                                assert(scanned[i] == buffer@[i]);
                            }
                        }
                        lemma_delimiter_offset_unique(buffer@, buffer@.len() as int);
                    }
                    break ;
                },
                Some(p) => {
                    proof {
                        assert forall|i: int| 0 <= i < p implies buffer@[i] != DELIMITER by {
                            if i < scanned.len() {
                                assert(scanned[i] == buffer@[i]);
                            }
                        }
                        lemma_delimiter_offset_unique(buffer@, p as int);
                        buffer.lemma_len_fits();
                    }
                    if p == 0 {
                        buffer.drain_prefix(1);
                        cursor = 0;
                    } else {
                        let mut drained = buffer.drain_prefix(p + 1);
                        drained.truncate(p);
                        frame = Some(drained);
                        cursor = 0;
                        break ;
                    }
                },
            }
        }
        self.buffer = buffer;
        self.scan_read = cursor;
        match frame {
            Some(f) => Action::Forward(f),
            None => Action::Read,
        }
    }

    /// Takes one event and says what to do next.
    pub fn process(&mut self, event: Event) -> (action: Action)
        ensures
            (final(self)@, action@) == step(old(self)@, event@),
    {
        proof {
            use_type_invariant(&*self);
        }
        match self.phase {
            Phase::Closed(reason) => Action::Close(reason),
            Phase::Streaming => match event {
                Event::Failed(reason) => {
                    self.phase = Phase::Closed(reason);
                    Action::Close(reason)
                },
                Event::Received(bytes) => {
                    if bytes.len() == 0 {
                        self.phase = Phase::Closed(Error::Tcp);
                        Action::Close(Error::Tcp)
                    } else {
                        self.advance(bytes.as_slice())
                    }
                },
                Event::Forwarded => {
                    let nothing: Vec<u8> = Vec::new();
                    assert(self.buffer@ + nothing@ =~= self.buffer@);
                    self.advance(nothing.as_slice())
                },
            },
        }
    }
}

} // verus!
