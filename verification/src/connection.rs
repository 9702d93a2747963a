//! How the view of a match follows its connection.
use vstd::prelude::*;
use crate::axials::AxialMap;
use crate::client::{resize, resized, Client, Facts};
use crate::contest::ContestedCellView;
use crate::coord::Axial;
use crate::deltas::{LifecycleEvent, Pending, Signals};
use crate::flows::ActiveFlow;
use crate::projection::ConnectionState;
use crate::retask::{next_revision, Display};
use crate::session::{after_event, is_effect, LifecycleEffect, Seat};
use crate::table::Table;
use crate::tactical::TacticalCache;

verus! {

impl Client {
    /// Whether nothing moves, nothing is fought for, and nothing is offered.
    pub open spec fn shows_nothing(&self) -> bool {
        &&& self.flows@ == Map::<u128, ActiveFlow>::empty()
        &&& self.active_fronts@.len() == 0
        &&& self.contested_cells@ == Map::<Axial, ContestedCellView>::empty()
        &&& self.retask.display() == Display::nothing()
    }

    /// Whether this is a view with nothing on it any more: what is counted of the
    /// running orders stays, and the revision tells whether anything was offered.
    pub open spec fn is_cleared(&self, other: Client) -> bool {
        &&& self.shows_nothing()
        &&& self.retask.offers() == other.retask.offers().hidden()
        &&& self.retask.revision == (if other.retask.display() == Display::nothing() {
            other.retask.revision
        } else {
            next_revision(other.retask.revision)
        })
    }

    /// Whether movement, fights and offers are those of another view.
    pub open spec fn shows_as(&self, other: Client) -> bool {
        &&& self.flows == other.flows
        &&& self.active_fronts == other.active_fronts
        &&& self.contested_cells == other.contested_cells
        &&& self.retask == other.retask
    }

    /// Takes movement, fights and offers off the view. What is counted of the
    /// running orders stays.
    pub fn clear_tactical_presentation(&mut self)
        ensures
            final(self).is_cleared(*old(self)),
            final(self).session == old(self).session,
            final(self).tactical == old(self).tactical,
            final(self).board == old(self).board,
            final(self).facts == old(self).facts,
    {
        self.flows = Table::new();
        self.active_fronts = Vec::new();
        self.contested_cells = AxialMap::new();
        self.retask.withdraw();
    }

    /// Starts a connection. Nothing of an earlier one is left but the cells.
    pub fn begin_connection(&mut self, signals: &mut Signals) -> (generation: u64)
        ensures
            final(self).session@ == old(self).session@.begun(),
            generation == final(self).session@.generation,
            final(self).session@.is_current(generation),
            final(self).tactical.is_blank(),
            final(self).tactical.is_sound(),
            final(self).is_cleared(*old(self)),
            final(self).board == old(self).board,
            final(self).facts == old(self).facts,
            final(signals).dirty == 0,
            final(signals).pending() == Pending::nothing(),
            final(signals).events == old(signals).events,
    {
        let generation: u64 = self.session.begin_connection();
        signals.clear_pending_deltas();
        self.tactical = TacticalCache::new();
        self.clear_tactical_presentation();
        generation
    }

    /// Gives up on a host that cannot be connected to.
    pub fn disable_invalid_host(&mut self)
        ensures
            final(self).session@ == (Seat {
                disabled: true,
                ..old(self).session@.unready().unsubscribed()
            }),
            final(self).is_cleared(*old(self)),
            final(self).tactical == old(self).tactical,
            final(self).board == old(self).board,
            final(self).facts == old(self).facts,
    {
        self.session.disable();
        self.clear_tactical_presentation();
    }

    /// Lets an event change the view. With a lost connection everything goes
    /// that the cells do not hold; without a seat, what the seat has shown.
    pub fn apply_lifecycle_event(
        &mut self,
        signals: &mut Signals,
        event: LifecycleEvent,
    ) -> (effect: LifecycleEffect)
        requires
            old(self).is_sound(),
        ensures
            final(self).is_sound(),
            final(self).session@ == after_event(old(self).session@, event),
            is_effect(old(self).session@, event, effect),
            final(self).board == old(self).board,
            match effect {
                LifecycleEffect::Lost { .. } => {
                    &&& final(self).tactical.is_blank()
                    &&& final(self).is_cleared(*old(self))
                    &&& final(self).facts@ == (Facts {
                        connection: resized(seq![], old(self).facts.player_count),
                        ..old(self).facts@
                    })
                    &&& final(signals).dirty == 0
                    &&& final(signals).pending() == Pending::nothing()
                    &&& final(signals).events == old(signals).events
                },
                LifecycleEffect::SlotUnavailable { .. } => {
                    &&& final(self).tactical == old(self).tactical
                    &&& final(self).is_cleared(*old(self))
                    &&& final(self).facts == old(self).facts
                    &&& *final(signals) == *old(signals)
                },
                _ => {
                    &&& final(self).tactical == old(self).tactical
                    &&& final(self).shows_as(*old(self))
                    &&& final(self).facts == old(self).facts
                    &&& *final(signals) == *old(signals)
                },
            },
    {
        let effect = self.session.apply_lifecycle_event(event);
        match &effect {
            LifecycleEffect::Lost { .. } => {
                signals.clear_pending_deltas();
                self.tactical = TacticalCache::new();
                self.clear_tactical_presentation();
                let none: Vec<ConnectionState> = Vec::new();
                assert(none@ =~= seq![]);
                self.facts.connection = resize(&none, self.facts.player_count);
            },
            LifecycleEffect::SlotUnavailable { .. } => {
                self.clear_tactical_presentation();
            },
            _ => {},
        }
        effect
    }
}

} // verus!
