//! The decisions of a comms task's two relay loops, and the record that ends
//! them. The loops themselves, which block on queues and on the connection,
//! hand each thing that happened to these state machines and carry out what
//! they answer.
use vstd::prelude::*;
use crate::error::{Error, IoFault};
use crate::frame::{
    decode, decode_stream, encode, frame_of, frames, lemma_decode_append, lemma_frames_in_order,
    lemma_corruption_resilience, lemma_pow256_8, payloads, pow256, starts_with_marker,
};

verus! {

/// A payload tagged with the index of the peer that sent it.
#[derive(Debug, Clone, PartialEq, Eq)]
pub struct SourcedMessage {
    pub source: usize,
    pub message: Vec<u8>,
}

/// `ms` are the payloads `ps`, in order, each tagged with `peer`.
pub open spec fn tagged(ms: Seq<SourcedMessage>, peer: usize, ps: Seq<Seq<u8>>) -> bool {
    &&& ms.len() == ps.len()
    &&& forall|i: int|
        0 <= i < ms.len() ==> (#[trigger] ms[i]).source == peer && ms[i].message@ == ps[i]
}

/// What the inbound loop saw on the connection or the inbound queue.
pub enum InboundEvent {
    /// Bytes read from the connection.
    Bytes(Vec<u8>),
    /// A read failed.
    ReadFailed(IoFault),
    /// The connection was closed by the peer.
    Closed,
    /// The inbound queue no longer takes messages.
    QueueClosed,
}

/// What the inbound loop does next: put `messages` on the inbound queue, in
/// order, warn of `dropped` bytes that held no frame, and stop with `stop`
/// where it is set.
pub struct InboundStep {
    pub messages: Vec<SourcedMessage>,
    pub dropped: usize,
    pub stop: Option<Error>,
}

/// The inbound relay: turns the bytes of the connection into messages from
/// one peer.
pub struct InboundRelay {
    peer: usize,
    pending: Vec<u8>,
    stopped: bool,
    received: Ghost<Seq<u8>>,
    delivered: Ghost<Seq<Seq<u8>>>,
    dropped: Ghost<nat>,
}

impl InboundRelay {
    pub closed spec fn peer(self) -> usize {
        self.peer
    }

    /// Every byte that has arrived on the connection, in order.
    pub closed spec fn received(self) -> Seq<u8> {
        self.received@
    }

    /// Every payload handed to the inbound queue so far, in order.
    pub closed spec fn delivered(self) -> Seq<Seq<u8>> {
        self.delivered@
    }

    /// How many bytes were dropped because no frame started there.
    pub closed spec fn dropped(self) -> nat {
        self.dropped@
    }

    /// The bytes that wait for the rest of their frame.
    pub closed spec fn pending(self) -> Seq<u8> {
        self.pending@
    }

    pub closed spec fn is_stopped(self) -> bool {
        self.stopped
    }

    pub closed spec fn wf(self) -> bool {
        decode_stream(self.received@) == (self.delivered@, self.pending@, self.dropped@)
    }

    /// A relay for the peer with index `peer`, before any byte has arrived.
    pub fn new(peer: usize) -> (r: InboundRelay)
        ensures
            r.wf(),
            r.peer() == peer,
            !r.is_stopped(),
            r.received() == Seq::<u8>::empty(),
            r.delivered() == Seq::<Seq<u8>>::empty(),
            r.dropped() == 0,
    {
        InboundRelay {
            peer,
            pending: Vec::new(),
            stopped: false,
            received: Ghost(Seq::empty()),
            delivered: Ghost(Seq::empty()),
            dropped: Ghost(0),
        }
    }

    pub fn peer_index(&self) -> (r: usize)
        ensures
            r == self.peer(),
    {
        self.peer
    }

    pub fn stopped(&self) -> (r: bool)
        ensures
            r == self.is_stopped(),
    {
        self.stopped
    }

    /// Decides what follows `event`. Bytes are decoded into as many whole
    /// frames as they complete, each payload tagged with the peer; bytes where
    /// no frame starts are dropped and counted, and the relay keeps running. A
    /// failed read, a closed connection or a closed queue stops it for good,
    /// with the error that `run` is to return. A stopped relay does nothing.
    pub fn on_event(&mut self, event: InboundEvent) -> (r: InboundStep)
        requires
            old(self).wf(),
        ensures
            final(self).wf(),
            final(self).peer() == old(self).peer(),
            old(self).is_stopped() ==> {
                &&& *final(self) == *old(self)
                &&& r.messages@.len() == 0
                &&& r.dropped == 0
                &&& r.stop is None
            },
            !old(self).is_stopped() ==> match event {
                InboundEvent::Bytes(chunk) => {
                    let d = decode_stream(old(self).pending() + chunk@);
                    &&& !final(self).is_stopped()
                    &&& final(self).received() == old(self).received() + chunk@
                    &&& final(self).delivered() == old(self).delivered() + d.0
                    &&& final(self).dropped() == old(self).dropped() + d.2
                    &&& tagged(r.messages@, old(self).peer(), d.0)
                    &&& r.dropped == d.2
                    &&& r.stop is None
                },
                _ => {
                    &&& final(self).is_stopped()
                    &&& final(self).received() == old(self).received()
                    &&& final(self).delivered() == old(self).delivered()
                    &&& final(self).dropped() == old(self).dropped()
                    &&& r.messages@.len() == 0
                    &&& r.dropped == 0
                    &&& r.stop == Some(
                        match event {
                            InboundEvent::ReadFailed(f) => Error::IoError(f),
                            InboundEvent::Closed => Error::IoError(IoFault::UnexpectedEof),
                            _ => Error::QueueClosed,
                        },
                    )
                },
            },
    {
        if self.stopped {
            return InboundStep { messages: Vec::new(), dropped: 0, stop: None };
        }
        match event {
            InboundEvent::Bytes(chunk) => {
                let mut chunk = chunk;
                let ghost c = chunk@;
                let ghost old_pending = self.pending@;
                let mut buf: Vec<u8> = Vec::new();
                std::mem::swap(&mut buf, &mut self.pending);
                buf.append(&mut chunk);
                let (found, at, dropped) = decode(buf.as_slice());
                let mut rest: Vec<u8> = Vec::new();
                let mut i: usize = at;
                while i < buf.len()
                    invariant
                        at <= i <= buf@.len(),
                        rest@ == buf@.subrange(at as int, i as int),
                    decreases buf@.len() - i,
                {
                    rest.push(buf[i]);
                    i = i + 1;
                    assert(rest@ =~= buf@.subrange(at as int, i as int));
                }
                assert(rest@ =~= buf@.skip(at as int));
                let mut messages: Vec<SourcedMessage> = Vec::new();
                let mut j: usize = 0;
                while j < found.len()
                    invariant
                        j <= found@.len(),
                        tagged(messages@, self.peer, payloads(found@.take(j as int))),
                    decreases found@.len() - j,
                {
                    let m = found[j].clone();
                    assert(m@ =~= found@[j as int]@);
                    messages.push(SourcedMessage { source: self.peer, message: m });
                    j = j + 1;
                    assert(payloads(found@.take(j as int)) =~= payloads(found@.take(j - 1)).push(found@[j - 1]@));
                }
                assert(found@.take(j as int) =~= found@);
                proof {
                    lemma_decode_append(self.received@, c);
                    assert(buf@ == old_pending + c);
                }
                self.pending = rest;
                self.received = Ghost(self.received@ + c);
                self.delivered = Ghost(self.delivered@ + payloads(found@));
                self.dropped = Ghost(self.dropped@ + dropped as nat);
                InboundStep { messages, dropped, stop: None }
            },
            InboundEvent::ReadFailed(f) => {
                self.stopped = true;
                InboundStep { messages: Vec::new(), dropped: 0, stop: Some(Error::IoError(f)) }
            },
            InboundEvent::Closed => {
                self.stopped = true;
                InboundStep {
                    messages: Vec::new(),
                    dropped: 0,
                    stop: Some(Error::IoError(IoFault::UnexpectedEof)),
                }
            },
            InboundEvent::QueueClosed => {
                self.stopped = true;
                InboundStep { messages: Vec::new(), dropped: 0, stop: Some(Error::QueueClosed) }
            },
        }
    }
}


/// Inbound order: once the bytes that arrived are the frames of `ms`, one
/// after another, exactly `ms` has been delivered, in that order, with nothing
/// dropped and nothing waiting.
pub proof fn lemma_inbound_order(r: InboundRelay, ms: Seq<Seq<u8>>)
    requires
        r.wf(),
        r.received() == frames(ms),
        forall|i: int| 0 <= i < ms.len() ==> (#[trigger] ms[i]).len() < pow256(8),
    ensures
        r.delivered() == ms,
        r.pending() == Seq::<u8>::empty(),
        r.dropped() == 0,
{
    lemma_frames_in_order(ms);
}

/// Resilience to corruption: corrupted bytes between the frames of `x` and `y`
/// (bytes where no frame marker starts) are dropped, and both payloads are
/// delivered in order.
pub proof fn lemma_inbound_skips_corruption(
    r: InboundRelay,
    x: Seq<u8>,
    junk: Seq<u8>,
    y: Seq<u8>,
)
    requires
        r.wf(),
        r.received() == frame_of(x) + junk + frame_of(y),
        x.len() < pow256(8),
        y.len() < pow256(8),
        forall|i: int|
            0 <= i < junk.len() ==> !starts_with_marker(#[trigger] (junk + frame_of(y)).skip(i)),
    ensures
        r.delivered() == seq![x, y],
        r.pending() == Seq::<u8>::empty(),
        r.dropped() == junk.len(),
{
    lemma_corruption_resilience(x, junk, y);
}

/// What the outbound loop saw on the outbound queue or the connection.
pub enum OutboundEvent {
    /// A message taken from the outbound queue.
    Message(Vec<u8>),
    /// Writing the last frame failed.
    WriteFailed(IoFault),
    /// The outbound queue was closed.
    QueueClosed,
    /// The task is shutting down.
    Cancelled,
}

/// What the outbound loop does next.
pub enum OutboundAction {
    /// Write these bytes to the connection, whole.
    Write(Vec<u8>),
    /// Stop, with the error that `run` is to return where there is one.
    Stop(Option<Error>),
}

/// The outbound relay: turns messages from the engine into frames on the
/// connection.
pub struct OutboundRelay {
    stopped: bool,
    sent: Ghost<Seq<Seq<u8>>>,
}

impl OutboundRelay {
    /// Every message framed for the connection so far, in order.
    pub closed spec fn sent(self) -> Seq<Seq<u8>> {
        self.sent@
    }

    pub closed spec fn is_stopped(self) -> bool {
        self.stopped
    }

    pub closed spec fn wf(self) -> bool {
        forall|i: int| 0 <= i < self.sent@.len() ==> (#[trigger] self.sent@[i]).len() < pow256(8)
    }

    pub fn new() -> (r: OutboundRelay)
        ensures
            r.wf(),
            !r.is_stopped(),
            r.sent() == Seq::<Seq<u8>>::empty(),
    {
        OutboundRelay { stopped: false, sent: Ghost(Seq::empty()) }
    }

    pub fn stopped(&self) -> (r: bool)
        ensures
            r == self.is_stopped(),
    {
        self.stopped
    }

    /// Decides what follows `event`. A message is framed, to be written as it
    /// stands. A failed write or a closed queue stops the relay with its error;
    /// a shutdown stops it with none. A stopped relay only stops again.
    pub fn on_event(&mut self, event: OutboundEvent) -> (r: OutboundAction)
        requires
            old(self).wf(),
        ensures
            final(self).wf(),
            old(self).is_stopped() ==> *final(self) == *old(self) && r == OutboundAction::Stop(
                None,
            ),
            !old(self).is_stopped() ==> match event {
                OutboundEvent::Message(m) => {
                    &&& !final(self).is_stopped()
                    &&& final(self).sent() == old(self).sent().push(m@)
                    &&& r matches OutboundAction::Write(f) && f@ == frame_of(m@)
                },
                _ => {
                    &&& final(self).is_stopped()
                    &&& final(self).sent() == old(self).sent()
                    &&& r == OutboundAction::Stop(
                        match event {
                            OutboundEvent::WriteFailed(f) => Some(Error::IoError(f)),
                            OutboundEvent::QueueClosed => Some(Error::QueueClosed),
                            _ => None,
                        },
                    )
                },
            },
    {
        if self.stopped {
            return OutboundAction::Stop(None);
        }
        match event {
            OutboundEvent::Message(m) => {
                let n: usize = m.len();
                let f = encode(m.as_slice());
                proof {
                    lemma_pow256_8();
                    assert forall|i: int| 0 <= i < self.sent@.push(m@).len() implies (
                    #[trigger] self.sent@.push(m@)[i]).len() < pow256(8) by {
                        if i == self.sent@.len() {
                            assert(m@.len() == n);
                            assert(n < 0x1_0000_0000_0000_0000);
                        }
                    }
                }
                self.sent = Ghost(self.sent@.push(m@));
                OutboundAction::Write(f)
            },
            OutboundEvent::WriteFailed(f) => {
                self.stopped = true;
                OutboundAction::Stop(Some(Error::IoError(f)))
            },
            OutboundEvent::QueueClosed => {
                self.stopped = true;
                OutboundAction::Stop(Some(Error::QueueClosed))
            },
            OutboundEvent::Cancelled => {
                self.stopped = true;
                OutboundAction::Stop(None)
            },
        }
    }
}

/// Outbound order: the frames written for the messages sent so far, one after
/// another, decode to those messages in the order they were sent.
pub proof fn lemma_outbound_order(r: OutboundRelay)
    requires
        r.wf(),
    ensures
        decode_stream(frames(r.sent())) == (r.sent(), Seq::<u8>::empty(), 0nat),
{
    lemma_frames_in_order(r.sent());
}

/// How a comms task ends: whether both loops were asked to stop, and the first
/// fatal error, which `run` returns.
pub struct Shutdown {
    requested: bool,
    error: Option<Error>,
}

impl Shutdown {
    pub closed spec fn is_requested(self) -> bool {
        self.requested
    }

    pub closed spec fn first_error(self) -> Option<Error> {
        self.error
    }

    pub fn new() -> (r: Shutdown)
        ensures
            !r.is_requested(),
            r.first_error() is None,
    {
        Shutdown { requested: false, error: None }
    }

    /// Records that a loop stopped, with its error if it had one. Both loops
    /// are then to stop; of several errors the first is kept.
    pub fn stop(&mut self, error: Option<Error>)
        ensures
            final(self).is_requested(),
            final(self).first_error() == if old(self).first_error() is Some {
                old(self).first_error()
            } else {
                error
            },
    {
        self.requested = true;
        if self.error.is_none() {
            self.error = error;
        }
    }

    pub fn requested(&self) -> (r: bool)
        ensures
            r == self.is_requested(),
    {
        self.requested
    }

    /// What `run` returns: the first fatal error, or success where there was
    /// none.
    pub fn result(&self) -> (r: Result<(), Error>)
        ensures
            match self.first_error() {
                Some(e) => r == Err::<(), Error>(e),
                None => r is Ok,
            },
    {
        match self.error {
            Some(e) => Err(e),
            None => Ok(()),
        }
    }
}

} // verus!
