//! The reconnect policy of the non-blocking transport, as a state machine.
//!
//! The socket itself lives outside this library: an I/O layer performs each
//! read, connect and write, and feeds what happened into this machine as a
//! plain event, then performs the action handed back. The policy: bytes are
//! delivered as they are; would-block and an orderly close are simply "no
//! data this poll"; a hard read error triggers exactly one reconnect
//! attempt, a successful reconnect exactly one retried read; every further
//! failure is swallowed, so a lost connection degrades the client to a
//! stale world instead of crashing the frame loop. A reconnect replaces the
//! socket whole: bytes in flight on the old one are lost, never replayed.

use vstd::prelude::*;

verus! {

/// What one non-blocking read yielded, as the I/O layer reports it.
pub enum ReadEvent {
    /// The read returned these bytes (at least one).
    Data(Vec<u8>),
    /// The read returned zero bytes: the peer closed in an orderly way.
    Closed,
    /// The read would have blocked: no data is available right now.
    WouldBlock,
    /// The read failed with a hard error.
    Failed,
}

/// What the machine asks the I/O layer to do next.
pub enum PollAction {
    /// The poll is over: hand these bytes to the codec.
    Deliver(Vec<u8>),
    /// The poll is over: nothing arrived this time.
    NoData,
    /// Attempt one reconnect to the last-known address, then report how it
    /// went through `on_reconnect`.
    Reconnect,
    /// Read once more from the fresh socket, then report through `on_read`.
    ReadAgain,
}

/// Where one poll of the transport stands.
#[derive(Clone, Copy, PartialEq, Eq, Structural, Debug)]
pub enum PollPhase {
    /// Before the first read of this poll.
    FirstRead,
    /// A reconnect was requested; its outcome has not been reported yet.
    AwaitReconnect,
    /// The reconnect succeeded; one retried read is owed.
    RetryRead,
    /// The poll is over.
    Done,
}

/// One poll of the transport, driven step by step by the I/O layer.
pub struct PollFlow {
    pub phase: PollPhase,
    /// How many reconnects this poll has requested.
    pub reconnects: u32,
}

impl PollFlow {
    /// A reconnect is requested at most once per poll, and only ever
    /// because the first read failed hard.
    pub open spec fn wf(&self) -> bool {
        &&& self.reconnects <= 1
        &&& (self.phase is FirstRead ==> self.reconnects == 0)
        &&& (self.phase is AwaitReconnect ==> self.reconnects == 1)
        &&& (self.phase is RetryRead ==> self.reconnects == 1)
    }

    /// Starts one poll.
    pub fn begin() -> (t: PollFlow)
        ensures
            t.wf(),
            t.phase is FirstRead,
            t.reconnects == 0,
    {
        PollFlow { phase: PollPhase::FirstRead, reconnects: 0 }
    }

    /// Reports what a read yielded. Data is delivered as it came; a close
    /// or a would-block ends the poll with nothing; a hard failure on the
    /// first read asks for the one reconnect, and on the retried read is
    /// swallowed.
    pub fn on_read(&mut self, ev: ReadEvent) -> (a: PollAction)
        requires
            old(self).wf(),
            old(self).phase is FirstRead || old(self).phase is RetryRead,
        ensures
            final(self).wf(),
            final(self).reconnects == if a is Reconnect {
                1u32
            } else {
                old(self).reconnects
            },
            match ev {
                ReadEvent::Data(d) => a == PollAction::Deliver(d) && final(self).phase is Done,
                ReadEvent::Closed => a is NoData && final(self).phase is Done,
                ReadEvent::WouldBlock => a is NoData && final(self).phase is Done,
                ReadEvent::Failed => if old(self).phase is FirstRead {
                    a is Reconnect && final(self).phase is AwaitReconnect
                } else {
                    a is NoData && final(self).phase is Done
                },
            },
    {
        match ev {
            ReadEvent::Data(d) => {
                self.phase = PollPhase::Done;
                PollAction::Deliver(d)
            },
            ReadEvent::Closed => {
                self.phase = PollPhase::Done;
                PollAction::NoData
            },
            ReadEvent::WouldBlock => {
                self.phase = PollPhase::Done;
                PollAction::NoData
            },
            ReadEvent::Failed => {
                if let PollPhase::FirstRead = self.phase {
                    self.phase = PollPhase::AwaitReconnect;
                    self.reconnects = 1;
                    PollAction::Reconnect
                } else {
                    self.phase = PollPhase::Done;
                    PollAction::NoData
                }
            },
        }
    }

    /// Reports how the one reconnect attempt went: a fresh socket earns one
    /// retried read; a failed reconnect is swallowed as "no data".
    pub fn on_reconnect(&mut self, ok: bool) -> (a: PollAction)
        requires
            old(self).wf(),
            old(self).phase is AwaitReconnect,
        ensures
            final(self).wf(),
            final(self).reconnects == old(self).reconnects,
            ok ==> a is ReadAgain && final(self).phase is RetryRead,
            !ok ==> a is NoData && final(self).phase is Done,
    {
        if ok {
            self.phase = PollPhase::RetryRead;
            PollAction::ReadAgain
        } else {
            self.phase = PollPhase::Done;
            PollAction::NoData
        }
    }
}

/// However a poll unfolds, the transport attempts at most one reconnect:
/// every reachable state of the machine carries at most one request, and
/// one is ever requested only because the poll's first read failed hard.
pub proof fn lemma_single_reconnect(t: &PollFlow)
    requires
        t.wf(),
    ensures
        t.reconnects <= 1,
{
}

} // verus!
