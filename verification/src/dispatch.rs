//! Sending what a player wants.
use vstd::prelude::*;
use crate::axials::AxialMap;
use crate::commands::{Book, ServerUpdate, Update};
use crate::coord::Axial;
use crate::intents::{
    invoke_intent, kind_of, missing_text, planned, Call, ClientIntent, PendingCommand, ReducerCall,
};
use crate::session::{Seat, Session};
use crate::text::text;

verus! {

/// What comes of an intent before the server is called.
#[derive(Debug)]
pub enum Dispatch {
    /// Nothing is sent; the player is told why.
    Refused { update: ServerUpdate },
    /// The command has a number, and nothing is sent; the player is told why.
    Unsendable { command_id: u64, started: bool, update: ServerUpdate },
    /// The server is to be called. A command that the player waits for has
    /// started.
    Call { command_id: u64, started: bool, call: ReducerCall, kind: PendingCommand },
}

/// Whether the player waits for an intent to be answered.
pub open spec fn is_awaited(intent: ClientIntent) -> bool {
    !(intent is SetMobilization)
}

/// Whether commands can be given now.
pub open spec fn is_open(seat: Seat) -> bool {
    seat.bootstrap_ready && seat.tactical_ready && seat.book.ready
}

impl Session {
    /// Gives an intent a number and turns it into a call. Without subscriptions
    /// or numbers nothing is sent.
    pub fn dispatch(
        &mut self,
        connected: bool,
        ids: &AxialMap<u32>,
        intent: ClientIntent,
        block_reason: String,
    ) -> (outcome: Dispatch)
        ensures
            match outcome {
                Dispatch::Refused { update } => final(self)@ == old(self)@ && if is_open(
                    old(self)@,
                ) {
                    old(self)@.book.next == u64::MAX && update@ == (Update::Rejected {
                        command_id: None,
                        reason: "Client command ID space is exhausted"@,
                    })
                } else {
                    update@ == (Update::Rejected { command_id: None, reason: block_reason@ })
                },
                Dispatch::Unsendable { command_id, started, update } => {
                    &&& is_open(old(self)@) && old(self)@.book.next < u64::MAX
                    &&& command_id == old(self)@.book.next
                    &&& started == is_awaited(intent)
                    &&& if connected {
                        planned(ids@, intent) is Err && update@ == (Update::Rejected {
                            command_id: Some(command_id),
                            reason: missing_text(planned(ids@, intent)->Err_0),
                        })
                    } else {
                        update@ == (Update::Rejected {
                            command_id: Some(command_id),
                            reason: "SpacetimeDB connection is unavailable"@,
                        })
                    }
                    &&& final(self)@ == (Seat {
                        book: Book {
                            next: (command_id + 1) as u64,
                            terminal: old(self)@.book.terminal.insert(command_id as u128),
                            ..old(self)@.book
                        },
                        ..old(self)@
                    })
                },
                Dispatch::Call { command_id, started, call, kind } => {
                    &&& is_open(old(self)@) && old(self)@.book.next < u64::MAX
                    &&& command_id == old(self)@.book.next
                    &&& started == is_awaited(intent)
                    &&& connected
                    &&& planned(ids@, intent) == Ok::<Call, Axial>(call@)
                    &&& kind == kind_of(intent)
                    &&& final(self)@ == (Seat {
                        book: Book { next: (command_id + 1) as u64, ..old(self)@.book },
                        ..old(self)@
                    })
                },
            },
            old(self)@.book.is_numbered() ==> final(self)@.book.is_numbered(),
    {
        if !self.accepts_commands() {
            return Dispatch::Refused {
                update: ServerUpdate::Rejected { command_id: None, reason: block_reason },
            };
        }
        let command_id: u64 = match self.book.allocate_command_id() {
            Some(id) => id,
            None => {
                return Dispatch::Refused {
                    update: ServerUpdate::Rejected {
                        command_id: None,
                        reason: text("Client command ID space is exhausted"),
                    },
                };
            },
        };
        let started: bool = match intent {
            ClientIntent::SetMobilization { .. } => false,
            _ => true,
        };
        match invoke_intent(connected, ids, intent) {
            Ok((call, kind)) => Dispatch::Call { command_id, started, call, kind },
            Err(reason) => {
                let update = self.book.refuse(command_id, reason);
                Dispatch::Unsendable { command_id, started, update }
            },
        }
    }

    /// Takes note of how the call went: the command waits for its answer, or it
    /// is closed and the player is told why.
    pub fn note_call(&mut self, command_id: u64, kind: PendingCommand, failure: Option<String>) -> (
        update: Option<ServerUpdate>)
        ensures
            match (update, failure) {
                (None, None) => final(self)@ == (Seat {
                    book: Book {
                        pending: old(self)@.book.pending.insert(command_id as u128, kind),
                        ..old(self)@.book
                    },
                    ..old(self)@
                }),
                (Some(u), Some(reason)) => u@ == (Update::Rejected {
                    command_id: Some(command_id),
                    reason: reason@,
                }) && final(self)@ == (Seat {
                    book: Book {
                        terminal: old(self)@.book.terminal.insert(command_id as u128),
                        ..old(self)@.book
                    },
                    ..old(self)@
                }),
                _ => false,
            },
            old(self)@.book.is_numbered() ==> final(self)@.book.is_numbered(),
    {
        match failure {
            None => {
                self.book.submit(command_id, kind);
                None
            },
            Some(reason) => Some(self.book.refuse(command_id, reason)),
        }
    }
}

/// What is seen never lowers the number that is given next, and a number that has
/// been given raises it.
pub proof fn law_numbers_only_grow(book: Book, seen: u64)
    ensures
        book.seen(seen).next >= book.next,
        book.next < u64::MAX ==> book.next < book.seen(book.next).next,
{
}

} // verus!
