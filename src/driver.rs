//! The object-safe face of one party's protocol state machine.
//!
//! A driver owns its state machine and everything the machine borrows; the
//! library only ever advances it one step at a time or hands it one message.

use vstd::prelude::*;

verus! {

/// How a message was addressed by its sender.
#[derive(Clone, Copy, Debug, PartialEq, Eq, Structural)]
pub enum MsgKind {
    Broadcast,
    P2P,
}

/// Where an outgoing message should go; parties are numbered from zero within
/// the group that runs the protocol.
#[derive(Clone, Copy, Debug, PartialEq, Eq, Structural)]
pub enum Destination {
    AllParties,
    OneParty(u16),
}

impl Destination {
    /// The kind under which receivers see a message sent to this destination.
    pub open spec fn spec_kind(self) -> MsgKind {
        match self {
            Destination::AllParties => MsgKind::Broadcast,
            Destination::OneParty(_) => MsgKind::P2P,
        }
    }

    pub fn kind(self) -> (k: MsgKind)
        ensures
            k == self.spec_kind(),
    {
        match self {
            Destination::AllParties => MsgKind::Broadcast,
            Destination::OneParty(_) => MsgKind::P2P,
        }
    }
}

/// A message that a state machine wants sent.
pub struct Outgoing<M> {
    pub dest: Destination,
    pub msg: M,
}

/// What one step of a state machine produced.
pub enum DriveOutcome<M, O> {
    /// The machine wants this message sent.
    SendMsg(Outgoing<M>),
    /// The machine is blocked until one more message is delivered.
    NeedsInput,
    /// The machine made internal progress; drive it again.
    Yielded,
    /// The machine finished with this output; it is reported once.
    Finished(O),
}

impl<M, O> DriveOutcome<M, O> {
    /// Driving must stop after this outcome until a message is delivered.
    pub open spec fn blocks(&self) -> bool {
        self is NeedsInput || self is Finished
    }
}

/// One party's state machine behind an object-safe interface.
///
/// `drive_one` fails when the machine reports an irrecoverable protocol error;
/// `receive` fails when the machine rejects a message. Both are fatal.
pub trait PartyDriver<M, O> {
    /// Advance the machine by one step.
    fn drive_one(&mut self) -> Result<DriveOutcome<M, O>, String>;

    /// Hand the machine one message from the party at position `sender`.
    fn receive(&mut self, sender: u16, kind: MsgKind, msg: &M) -> Result<(), String>;
}

} // verus!
