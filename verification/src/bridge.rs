//! The Application Bridge: each direction between the application and the
//! engine is a bounded, capacity-one message slot with non-blocking send
//! and receive, so neither side ever stalls waiting for the other.

use crate::message::{MessageModel, MessageType};
use vstd::prelude::*;

verus! {

/// One direction of the Application Bridge: a capacity-one channel.
pub struct BridgeChannel {
    slot: Option<MessageType>,
}

impl View for BridgeChannel {
    type V = Option<MessageModel>;

    closed spec fn view(&self) -> Option<MessageModel> {
        match self.slot {
            Option::Some(m) => Some(m@),
            Option::None => None,
        }
    }
}

impl BridgeChannel {
    /// An empty channel.
    pub fn new() -> (c: BridgeChannel)
        ensures
            c@ is None,
    {
        BridgeChannel { slot: None }
    }

    /// True iff a message is pending.
    pub fn is_occupied(&self) -> (b: bool)
        ensures
            b == (self@ is Some),
    {
        self.slot.is_some()
    }

    /// Non-blocking send: when the slot is free the message is stored;
    /// when it is occupied the send fails immediately, the message is
    /// handed back unchanged, and the pending message is untouched.
    pub fn try_send(&mut self, message: MessageType) -> (r: Result<(), MessageType>)
        ensures
            old(self)@ is None ==> r is Ok && final(self)@ == Some(message@),
            old(self)@ is Some ==> final(self)@ == old(self)@ && (r matches Result::Err(back)
                && back == message),
    {
        if self.slot.is_some() {
            Err(message)
        } else {
            self.slot = Some(message);
            Ok(())
        }
    }

    /// Non-blocking receive: takes the pending message, if any, leaving the
    /// slot free.
    pub fn try_recv(&mut self) -> (r: Option<MessageType>)
        ensures
            final(self)@ is None,
            match r {
                Some(m) => old(self)@ == Some(m@),
                None => old(self)@ is None,
            },
    {
        let mut taken: Option<MessageType> = None;
        core::mem::swap(&mut self.slot, &mut taken);
        taken
    }
}

} // verus!
