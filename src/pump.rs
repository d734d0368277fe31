use vstd::prelude::*;

use crate::codec::{encode, frame_of, DecodeError, Message};
use crate::framing::{
    event_matches, frames_of, intact, overflows, pending_of, FrameReader, MAX_PAYLOAD,
};

verus! {

/// Why a connection ended.
#[derive(Clone, Copy, Debug, PartialEq, Eq, Structural)]
pub enum CloseReason {
    /// The peer closed the stream in an orderly way.
    PeerClosed,
    /// Reading from the stream failed.
    ReadFailed,
    /// Writing to or flushing the stream failed.
    WriteFailed,
    /// Every producer of the outbound queue is gone.
    QueueClosed,
    /// The peer sent more than the frame cap without a delimiter.
    FrameTooLarge,
}

/// What happened on one side of a connection.
#[derive(Debug)]
pub enum PumpEvent {
    /// A read returned these bytes (never empty).
    Received(Vec<u8>),
    /// A read returned no bytes: the peer closed the stream.
    PeerClosed,
    ReadFailed,
    /// The outbound queue handed over this message.
    Outbound(Message),
    QueueClosed,
    WriteFailed,
}

/// What the connection's two loops do next.
#[derive(Debug)]
pub enum PumpAction {
    /// Hand these decode outcomes, in order, to the sink.
    Deliver(Vec<Result<Message, DecodeError>>),
    /// Hand these decode outcomes, in order, to the sink; then stop both
    /// loops and drop the connection.
    DeliverThenClose(Vec<Result<Message, DecodeError>>, CloseReason),
    /// Write these bytes in full and flush.
    Send(Vec<u8>),
    /// Stop both loops and drop the connection.
    Close(CloseReason),
    /// The connection is already closed; do nothing.
    Ignore,
}

/// The state of one connection's duplex message pump: the inbound frame
/// reader, and whether the connection has ended.
pub struct Pump {
    reader: FrameReader,
    ended: Option<CloseReason>,
}

impl Pump {
    /// The bytes received since the last delimiter.
    pub closed spec fn buffered(&self) -> Seq<u8> {
        self.reader.buffered()
    }

    /// Why the connection ended, or `None` while it is open.
    pub closed spec fn ended(&self) -> Option<CloseReason> {
        self.ended
    }

    pub closed spec fn wf(&self) -> bool {
        &&& self.reader.wf()
        &&& self.reader.max_payload() == MAX_PAYLOAD
    }

    /// An open connection with nothing received yet.
    pub fn new() -> (r: Pump)
        ensures
            r.wf(),
            r.ended().is_none(),
            r.buffered() == Seq::<u8>::empty(),
    {
        Pump { reader: FrameReader::new(MAX_PAYLOAD), ended: None }
    }

    /// Whether the connection is still open.
    pub fn is_open(&self) -> (r: bool)
        ensures
            r == self.ended().is_none(),
    {
        self.ended.is_none()
    }

    /// Decides what follows an event. Bytes are reassembled into frames and
    /// decoded; when they break the frame cap, the frames completed before
    /// that point are still delivered, and the connection ends; an outbound message is encoded; a close or failure of either
    /// side ends the connection for both loops; once ended, nothing more
    /// happens.
    pub fn step(&mut self, event: PumpEvent) -> (a: PumpAction)
        requires
            old(self).wf(),
        ensures
            final(self).wf(),
            old(self).ended().is_some() ==> a is Ignore && *final(self) == *old(self),
            old(self).ended().is_none() ==> match event {
                PumpEvent::Received(c) => {
                    let s = old(self).buffered() + c@;
                    if overflows(s, MAX_PAYLOAD as nat) {
                        let fs = frames_of(intact(s, MAX_PAYLOAD as nat));
                        &&& final(self).ended() == Some(CloseReason::FrameTooLarge)
                        &&& a matches PumpAction::DeliverThenClose(es, reason) && reason
                            == CloseReason::FrameTooLarge && es@.len() == fs.len() && forall|k: int|
                            0 <= k < es@.len() ==> event_matches(#[trigger] es@[k], fs[k])
                    } else {
                        &&& final(self).ended().is_none()
                        &&& final(self).buffered() == pending_of(s)
                        &&& a matches PumpAction::Deliver(es) && es@.len() == frames_of(s).len()
                            && forall|k: int|
                            0 <= k < es@.len() ==> event_matches(#[trigger] es@[k], frames_of(s)[k])
                    }
                },
                PumpEvent::Outbound(m) => {
                    &&& final(self).ended().is_none()
                    &&& final(self).buffered() == old(self).buffered()
                    &&& a matches PumpAction::Send(bytes) && bytes@ == frame_of(m.key@, m.value)
                },
                PumpEvent::PeerClosed => a == PumpAction::Close(CloseReason::PeerClosed)
                    && final(self).ended() == Some(CloseReason::PeerClosed),
                PumpEvent::ReadFailed => a == PumpAction::Close(CloseReason::ReadFailed)
                    && final(self).ended() == Some(CloseReason::ReadFailed),
                PumpEvent::QueueClosed => a == PumpAction::Close(CloseReason::QueueClosed)
                    && final(self).ended() == Some(CloseReason::QueueClosed),
                PumpEvent::WriteFailed => a == PumpAction::Close(CloseReason::WriteFailed)
                    && final(self).ended() == Some(CloseReason::WriteFailed),
            },
    {
        if self.ended.is_some() {
            return PumpAction::Ignore;
        }
        let reason = match event {
            PumpEvent::Received(chunk) => {
                let (events, error) = self.reader.receive(chunk.as_slice());
                match error {
                    None => return PumpAction::Deliver(events),
                    Some(_) => {
                        self.ended = Some(CloseReason::FrameTooLarge);
                        return PumpAction::DeliverThenClose(events, CloseReason::FrameTooLarge);
                    },
                }
            },
            PumpEvent::Outbound(m) => return PumpAction::Send(encode(&m)),
            PumpEvent::PeerClosed => CloseReason::PeerClosed,
            PumpEvent::ReadFailed => CloseReason::ReadFailed,
            PumpEvent::QueueClosed => CloseReason::QueueClosed,
            PumpEvent::WriteFailed => CloseReason::WriteFailed,
        };
        self.ended = Some(reason);
        PumpAction::Close(reason)
    }
}

} // verus!
