//! The life of a connection: seats, subscriptions, losses and retries.
use vstd::prelude::*;
use vstd::string::*;
use crate::commands::{losses, said, Book, CommandBook, ServerUpdate, Update};
use crate::deltas::LifecycleEvent;
use crate::interest::{
    spatial_cell_state_queries, spatial_text, spawn_focus, spawn_interest, tactical_subscription_queries,
    tactical_texts, texts, SpatialInterest, SubscriptionLifecycle, HIGH_SCALE_PLAYER_THRESHOLD,
};
use crate::table::ordered_keys;
use crate::text::text;

verus! {

/// How long to wait before the next try, in half seconds: it doubles with every
/// failure, four times.
pub open spec fn retry_delay(attempt: u32) -> u32 {
    if attempt == 0 {
        1
    } else if attempt == 1 {
        2
    } else if attempt == 2 {
        4
    } else if attempt == 3 {
        8
    } else {
        16
    }
}

/// The number after a generation; zero is not one.
pub open spec fn next_generation(generation: u64) -> u64 {
    if generation == u64::MAX {
        1
    } else {
        (generation + 1) as u64
    }
}

/// The state of a connection.
#[derive(Debug)]
pub struct Session {
    pub subscription_lifecycle: SubscriptionLifecycle,
    pub bound_player: Option<u16>,
    pub tactical_subscription_player: Option<u16>,
    pub spatial_interest: Option<SpatialInterest>,
    pub active_generation: u64,
    pub failed_generation: Option<u64>,
    pub reconnect_attempt: u32,
    /// What is left of the delay at its start, in half seconds.
    pub reconnect_half_seconds: u32,
    pub connection_disabled: bool,
    pub book: CommandBook,
}

/// What a session knows.
pub ghost struct Seat {
    pub bootstrap_ready: bool,
    pub tactical_ready: bool,
    pub bound: Option<u16>,
    pub subscribed: Option<u16>,
    pub interest: Option<SpatialInterest>,
    pub generation: u64,
    pub failed: Option<u64>,
    pub attempt: u32,
    pub delay: u32,
    pub disabled: bool,
    pub book: Book,
}

impl Seat {
    /// Whether an event of a generation still counts.
    pub open spec fn is_current(self, generation: u64) -> bool {
        generation == self.generation && self.failed != Some(generation)
    }

    /// After one more failure.
    pub open spec fn delayed(self) -> Seat {
        Seat {
            delay: retry_delay(self.attempt),
            attempt: if self.attempt == u32::MAX {
                u32::MAX
            } else {
                (self.attempt + 1) as u32
            },
            ..self
        }
    }

    /// Without subscriptions of a seat.
    pub open spec fn unsubscribed(self) -> Seat {
        Seat { interest: None, subscribed: None, ..self }
    }

    /// Without any subscription applied.
    pub open spec fn unready(self) -> Seat {
        Seat {
            bootstrap_ready: false,
            tactical_ready: false,
            book: Book { ready: false, ..self.book },
            ..self
        }
    }

    /// At the start of a connection.
    pub open spec fn begun(self) -> Seat {
        Seat {
            generation: next_generation(self.generation),
            failed: None,
            ..self.unready().unsubscribed()
        }
    }

    /// After a connection of the current generation has been lost.
    pub open spec fn lost(self) -> Seat {
        let left = self.unready().unsubscribed();
        Seat {
            failed: Some(self.generation),
            bound: None,
            book: Book {
                pending: Map::empty(),
                terminal: self.book.terminal.union(self.book.pending.dom()),
                ..left.book
            },
            ..left
        }.delayed()
    }
}

impl View for Session {
    type V = Seat;

    open spec fn view(&self) -> Seat {
        Seat {
            bootstrap_ready: self.subscription_lifecycle.bootstrap_ready,
            tactical_ready: self.subscription_lifecycle.tactical_ready,
            bound: self.bound_player,
            subscribed: self.tactical_subscription_player,
            interest: self.spatial_interest,
            generation: self.active_generation,
            failed: self.failed_generation,
            attempt: self.reconnect_attempt,
            delay: self.reconnect_half_seconds,
            disabled: self.connection_disabled,
            book: self.book@,
        }
    }
}

/// What an event means for the view.
#[derive(Debug)]
pub enum LifecycleEffect {
    /// Nothing.
    Ignored,
    /// The server is being reached; a line for the status.
    Connecting { message: String },
    /// The player may give commands; a line for the status.
    Ready { message: String },
    /// There is no seat for the player.
    SlotUnavailable { reason: String },
    /// The connection is gone: everything that it told is void.
    Lost { log: String, updates: Vec<ServerUpdate> },
    /// A command got nowhere.
    Told { update: ServerUpdate },
    /// A line for the log.
    Log { message: String },
}

/// Whether an effect is the one of an event on a session.
pub open spec fn is_effect(seat: Seat, event: LifecycleEvent, effect: LifecycleEffect) -> bool {
    match event {
        LifecycleEvent::Connected { generation } => if seat.is_current(generation) {
            effect matches LifecycleEffect::Connecting { message } && message@
                == "Connected · subscribing to authoritative tables…"@
        } else {
            effect is Ignored
        },
        LifecycleEvent::BootstrapSubscribed { generation } => if seat.is_current(generation) {
            effect matches LifecycleEffect::Connecting { message } && message@
                == "Authoritative lobby snapshot applied · joining match…"@
        } else {
            effect is Ignored
        },
        LifecycleEvent::TacticalSubscribed { generation } => if seat.is_current(generation)
            && seat.bound is Some {
            effect matches LifecycleEffect::Ready { message } && message@
                == "Authoritative controls ready · tactical subscription applied"@
        } else {
            effect is Ignored
        },
        LifecycleEvent::JoinFailed { generation, reason } => if seat.is_current(generation) {
            effect matches LifecycleEffect::SlotUnavailable { reason: told } && told@ == reason@
        } else {
            effect is Ignored
        },
        LifecycleEvent::ConnectionFailed { generation, reason } => is_loss(
            seat,
            generation,
            "Connection failed: "@ + reason@,
            effect,
        ),
        LifecycleEvent::Disconnected { generation, reason } => is_loss(
            seat,
            generation,
            "Disconnected: "@ + reason@,
            effect,
        ),
        LifecycleEvent::CommandFailed { command_id, reason } => if seat.book.terminal.contains(
            command_id as u128,
        ) || !seat.book.pending.contains_key(command_id as u128) {
            effect is Ignored
        } else {
            effect matches LifecycleEffect::Told { update } && update@ == (Update::Rejected {
                command_id: Some(command_id),
                reason: reason@,
            })
        },
        LifecycleEvent::TokenWarning { generation, message } => if generation == seat.generation {
            effect matches LifecycleEffect::Log { message: line } && line@ == message@
        } else {
            effect is Ignored
        },
    }
}

/// What a loss means: every command that a player waits for is answered.
pub open spec fn is_loss(
    seat: Seat,
    generation: u64,
    line: Seq<char>,
    effect: LifecycleEffect,
) -> bool {
    if seat.is_current(generation) {
        effect matches LifecycleEffect::Lost { log, updates } && log@ == line && said(updates@)
            == losses(seat.book.pending, ordered_keys(seat.book.pending.dom()))
    } else {
        effect is Ignored
    }
}

/// The state of a session after an event.
pub open spec fn after_event(seat: Seat, event: LifecycleEvent) -> Seat {
    match event {
        LifecycleEvent::BootstrapSubscribed { generation } => if seat.is_current(generation) {
            Seat { attempt: 0, delay: 0, bootstrap_ready: true, ..seat }
        } else {
            seat
        },
        LifecycleEvent::TacticalSubscribed { generation } => if seat.is_current(generation) {
            Seat { tactical_ready: true, ..seat }
        } else {
            seat
        },
        LifecycleEvent::JoinFailed { generation, .. } => if seat.is_current(generation) {
            Seat {
                bound: None,
                tactical_ready: false,
                book: Book { ready: false, ..seat.book },
                ..seat.unsubscribed()
            }
        } else {
            seat
        },
        LifecycleEvent::ConnectionFailed { generation, .. } => if seat.is_current(generation) {
            seat.lost()
        } else {
            seat
        },
        LifecycleEvent::Disconnected { generation, .. } => if seat.is_current(generation) {
            seat.lost()
        } else {
            seat
        },
        LifecycleEvent::CommandFailed { command_id, .. } => if seat.book.terminal.contains(
            command_id as u128,
        ) {
            seat
        } else {
            Seat {
                book: Book {
                    terminal: seat.book.terminal.insert(command_id as u128),
                    pending: seat.book.pending.remove(command_id as u128),
                    ..seat.book
                },
                ..seat
            }
        },
        _ => seat,
    }
}

/// What is done about a connection.
#[derive(Clone, Copy, Debug, Eq, PartialEq, Structural)]
pub enum Upkeep {
    /// Nothing.
    Rest,
    /// See whether the one that is being made is there.
    Poll,
    /// Let the delay go on.
    Wait,
    /// Connect.
    Connect,
}

impl Session {
    pub fn new(first_command_id: u64) -> (session: Session)
        ensures
            session@ == (Seat {
                bootstrap_ready: false,
                tactical_ready: false,
                bound: None,
                subscribed: None,
                interest: None,
                generation: 0,
                failed: None,
                attempt: 0,
                delay: 0,
                disabled: false,
                book: Book {
                    pending: Map::empty(),
                    processed: Set::empty(),
                    terminal: Set::empty(),
                    next: first_command_id,
                    ready: false,
                },
            }),
            session@.book.is_numbered(),
    {
        Session {
            subscription_lifecycle: SubscriptionLifecycle::reset(),
            bound_player: None,
            tactical_subscription_player: None,
            spatial_interest: None,
            active_generation: 0,
            failed_generation: None,
            reconnect_attempt: 0,
            reconnect_half_seconds: 0,
            connection_disabled: false,
            book: CommandBook::new(first_command_id),
        }
    }

    pub fn lifecycle_is_current(&self, generation: u64) -> (current: bool)
        ensures
            current == self@.is_current(generation),
    {
        generation == self.active_generation && self.failed_generation != Some(generation)
    }

    /// Sets the delay before the next try.
    pub fn schedule_reconnect(&mut self)
        ensures
            final(self)@ == old(self)@.delayed(),
    {
        self.reconnect_half_seconds = if self.reconnect_attempt == 0 {
            1
        } else if self.reconnect_attempt == 1 {
            2
        } else if self.reconnect_attempt == 2 {
            4
        } else if self.reconnect_attempt == 3 {
            8
        } else {
            16
        };
        if self.reconnect_attempt < u32::MAX {
            self.reconnect_attempt = self.reconnect_attempt + 1;
        }
    }

    fn clear_subscriptions(&mut self)
        ensures
            final(self)@ == old(self)@.unsubscribed(),
    {
        self.spatial_interest = None;
        self.tactical_subscription_player = None;
    }

    fn make_unready(&mut self)
        ensures
            final(self)@ == old(self)@.unready(),
    {
        self.subscription_lifecycle = SubscriptionLifecycle::reset();
        self.book.command_ids_ready = false;
    }

    /// What to do about the connection now, by whether there is one, one is being
    /// made, and the delay before the next try is over.
    pub fn maintain_connection(
        &self,
        connected: bool,
        pending: bool,
        delay_is_over: bool,
    ) -> (upkeep: Upkeep)
        ensures
            upkeep == (if connected || self@.disabled {
                Upkeep::Rest
            } else if pending {
                Upkeep::Poll
            } else if delay_is_over {
                Upkeep::Connect
            } else {
                Upkeep::Wait
            }),
    {
        if connected || self.connection_disabled {
            Upkeep::Rest
        } else if pending {
            Upkeep::Poll
        } else if delay_is_over {
            Upkeep::Connect
        } else {
            Upkeep::Wait
        }
    }

    /// Starts a connection under a new generation.
    pub fn begin_connection(&mut self) -> (generation: u64)
        ensures
            final(self)@ == old(self)@.begun(),
            generation == final(self)@.generation,
            generation != 0,
            final(self)@.is_current(generation),
    {
        self.active_generation = if self.active_generation == u64::MAX {
            1
        } else {
            self.active_generation + 1
        };
        self.failed_generation = None;
        self.make_unready();
        self.clear_subscriptions();
        self.active_generation
    }

    /// Gives up: the host is not one that can be connected to.
    pub fn disable(&mut self)
        ensures
            final(self)@ == (Seat { disabled: true, ..old(self)@.unready().unsubscribed() }),
    {
        self.connection_disabled = true;
        self.make_unready();
        self.clear_subscriptions();
    }

    /// Lets an event change the session, and says what it means for the view.
    pub fn apply_lifecycle_event(&mut self, event: LifecycleEvent) -> (effect: LifecycleEffect)
        requires
            old(self)@.book.is_numbered(),
        ensures
            final(self)@ == after_event(old(self)@, event),
            is_effect(old(self)@, event, effect),
            final(self)@.book.is_numbered(),
    {
        match event {
            LifecycleEvent::Connected { generation } => {
                if self.lifecycle_is_current(generation) {
                    LifecycleEffect::Connecting {
                        message: text("Connected · subscribing to authoritative tables…"),
                    }
                } else {
                    LifecycleEffect::Ignored
                }
            },
            LifecycleEvent::BootstrapSubscribed { generation } => {
                if self.lifecycle_is_current(generation) {
                    self.reconnect_attempt = 0;
                    self.reconnect_half_seconds = 0;
                    self.subscription_lifecycle =
                    self.subscription_lifecycle.on_bootstrap_applied();
                    LifecycleEffect::Connecting {
                        message: text("Authoritative lobby snapshot applied · joining match…"),
                    }
                } else {
                    LifecycleEffect::Ignored
                }
            },
            LifecycleEvent::TacticalSubscribed { generation } => {
                if self.lifecycle_is_current(generation) {
                    self.subscription_lifecycle = self.subscription_lifecycle.on_tactical_applied();
                    if self.bound_player.is_some() {
                        return LifecycleEffect::Ready {
                            message: text(
                                "Authoritative controls ready · tactical subscription applied",
                            ),
                        };
                    }
                }
                LifecycleEffect::Ignored
            },
            LifecycleEvent::JoinFailed { generation, reason } => {
                if self.lifecycle_is_current(generation) {
                    self.bound_player = None;
                    self.clear_subscriptions();
                    self.subscription_lifecycle = self.subscription_lifecycle.on_tactical_start();
                    self.book.command_ids_ready = false;
                    LifecycleEffect::SlotUnavailable { reason }
                } else {
                    LifecycleEffect::Ignored
                }
            },
            LifecycleEvent::ConnectionFailed { generation, reason } => {
                let mut line = text("Connection failed: ");
                line.append(reason.as_str());
                self.handle_connection_loss(generation, line)
            },
            LifecycleEvent::Disconnected { generation, reason } => {
                let mut line = text("Disconnected: ");
                line.append(reason.as_str());
                self.handle_connection_loss(generation, line)
            },
            LifecycleEvent::CommandFailed { command_id, reason } => {
                match self.book.fail(command_id, reason) {
                    Some(update) => LifecycleEffect::Told { update },
                    None => LifecycleEffect::Ignored,
                }
            },
            LifecycleEvent::TokenWarning { generation, message } => {
                if generation == self.active_generation {
                    LifecycleEffect::Log { message }
                } else {
                    LifecycleEffect::Ignored
                }
            },
        }
    }

    /// Closes a connection of the current generation, once.
    fn handle_connection_loss(&mut self, generation: u64, log: String) -> (effect: LifecycleEffect)
        requires
            old(self)@.book.is_numbered(),
        ensures
            final(self)@ == (if old(self)@.is_current(generation) {
                old(self)@.lost()
            } else {
                old(self)@
            }),
            is_loss(old(self)@, generation, log@, effect),
            final(self)@.book.is_numbered(),
    {
        if !self.lifecycle_is_current(generation) {
            return LifecycleEffect::Ignored;
        }
        self.failed_generation = Some(generation);
        self.make_unready();
        self.bound_player = None;
        self.clear_subscriptions();
        let updates = self.book.lose_all();
        self.schedule_reconnect();
        LifecycleEffect::Lost { log, updates }
    }

    /// Whether the player may give commands now.
    pub fn accepts_commands(&self) -> (ready: bool)
        ensures
            ready == (self@.bootstrap_ready && self@.tactical_ready && self@.book.ready),
    {
        self.subscription_lifecycle.commands_ready() && self.book.command_ids_ready
    }

    /// Takes the seat that the server has given; whether it is a new one.
    pub fn bind(&mut self, player_id: u16) -> (fresh: bool)
        ensures
            fresh == (old(self)@.bound != Some(player_id)),
            final(self)@ == (if fresh {
                Seat {
                    bound: Some(player_id),
                    book: Book { ready: false, ..old(self)@.book },
                    ..old(self)@
                }
            } else {
                old(self)@
            }),
    {
        if self.bound_player == Some(player_id) {
            return false;
        }
        self.bound_player = Some(player_id);
        self.book.command_ids_ready = false;
        true
    }

    /// The subscriptions that a seat needs and does not have yet: the queries,
    /// and in a large match the chunks around the spawn cell too.
    pub fn ensure_tactical_subscriptions(
        &mut self,
        connected: bool,
        player_count: u16,
        local_player: u16,
        spawn_cell: u32,
        layout: Option<(u16, u16)>,
    ) -> (wanted: Option<(Vec<String>, Option<Vec<String>>)>)
        ensures
            match wanted {
                None => (old(self)@.subscribed == Some(local_player) || !connected) && final(self)@
                    == old(self)@,
                Some((queries, spatial)) => {
                    &&& old(self)@.subscribed != Some(local_player) && connected
                    &&& texts(queries@) == tactical_texts(player_count, local_player)
                    &&& if player_count > HIGH_SCALE_PLAYER_THRESHOLD {
                        let focus = spawn_focus(spawn_cell, layout);
                        &&& final(self)@ == (Seat {
                            subscribed: Some(local_player),
                            tactical_ready: false,
                            interest: Some(focus),
                            ..old(self)@
                        })
                        &&& match spatial {
                            Some(list) => old(self)@.interest != Some(focus) && texts(list@)
                                == seq![spatial_text(focus)],
                            None => old(self)@.interest == Some(focus),
                        }
                    } else {
                        &&& final(self)@ == (Seat {
                            subscribed: Some(local_player),
                            tactical_ready: false,
                            ..old(self)@
                        })
                        &&& spatial is None
                    }
                },
            },
    {
        if self.tactical_subscription_player == Some(local_player) || !connected {
            return None;
        }
        let queries = tactical_subscription_queries(player_count, local_player);
        self.tactical_subscription_player = Some(local_player);
        self.subscription_lifecycle = self.subscription_lifecycle.on_tactical_start();
        let spatial: Option<Vec<String>> = if player_count > HIGH_SCALE_PLAYER_THRESHOLD {
            let focus = spawn_interest(spawn_cell, layout);
            self.install_spatial_interest(connected, focus)
        } else {
            None
        };
        Some((queries, spatial))
    }

    /// Moves the interest; the queries, where it is a new one.
    pub fn install_spatial_interest(
        &mut self,
        connected: bool,
        interest: SpatialInterest,
    ) -> (queries: Option<Vec<String>>)
        ensures
            match queries {
                None => (old(self)@.interest == Some(interest) || !connected) && final(self)@
                    == old(self)@,
                Some(list) => old(self)@.interest != Some(interest) && connected && texts(list@)
                    == seq![spatial_text(interest)] && final(self)@ == (Seat {
                    interest: Some(interest),
                    ..old(self)@
                }),
            },
    {
        if self.spatial_interest == Some(interest) || !connected {
            return None;
        }
        self.spatial_interest = Some(interest);
        Some(spatial_cell_state_queries(interest))
    }

    /// Follows the camera in a large match: new queries, where its focus has
    /// come to another chunk.
    pub fn follow_camera(
        &mut self,
        connected: bool,
        player_count: u16,
        camera: Option<SpatialInterest>,
    ) -> (queries: Option<Vec<String>>)
        ensures
            match queries {
                None => !follows_to(old(self)@, connected, player_count, camera) && final(self)@
                    == old(self)@,
                Some(list) => follows_to(old(self)@, connected, player_count, camera) && texts(
                    list@,
                ) == seq![spatial_text(camera.unwrap())] && final(self)@ == (Seat {
                    interest: camera,
                    ..old(self)@
                }),
            },
    {
        if player_count <= HIGH_SCALE_PLAYER_THRESHOLD || self.bound_player.is_none() || !connected
            || !self.subscription_lifecycle.tactical_ready {
            return None;
        }
        match camera {
            Some(interest) => {
                if let Some(current) = self.spatial_interest {
                    if current.focus_chunk_q == interest.focus_chunk_q && current.focus_chunk_r
                        == interest.focus_chunk_r {
                        return None;
                    }
                }
                self.install_spatial_interest(connected, interest)
            },
            None => None,
        }
    }
}

/// Whether the interest follows the camera to another chunk.
pub open spec fn follows_to(
    seat: Seat,
    connected: bool,
    player_count: u16,
    camera: Option<SpatialInterest>,
) -> bool {
    &&& player_count > HIGH_SCALE_PLAYER_THRESHOLD
    &&& seat.bound is Some
    &&& connected
    &&& seat.tactical_ready
    &&& camera is Some
    &&& match seat.interest {
        Some(current) => current.focus_chunk_q != camera.unwrap().focus_chunk_q
            || current.focus_chunk_r != camera.unwrap().focus_chunk_r,
        None => true,
    }
}

/// The subscriptions of spatial interest: one that is live, and one that goes
/// when the live one has been applied. They are told apart by numbers.
#[derive(Debug)]
pub struct SpatialHandles {
    pub live: Option<u64>,
    pub retiring: Option<u64>,
}

impl SpatialHandles {
    pub fn new() -> (handles: SpatialHandles)
        ensures
            handles.live is None,
            handles.retiring is None,
    {
        SpatialHandles { live: None, retiring: None }
    }

    /// Puts a new subscription in; the one that has to go now.
    pub fn install(&mut self, handle: u64) -> (stale: Option<u64>)
        ensures
            final(self).live == Some(handle),
            old(self).live is Some ==> final(self).retiring == old(self).live,
            old(self).live is Some ==> stale == old(self).retiring,
            old(self).live is None ==> final(self).retiring == old(self).retiring && stale is None,
    {
        let stale: Option<u64> = if self.live.is_some() {
            let stale: Option<u64> = self.retiring;
            self.retiring = self.live;
            stale
        } else {
            None
        };
        self.live = Some(handle);
        stale
    }

    /// The subscription that goes once the live one is active.
    pub fn finish_retiring(&mut self, live_is_active: bool) -> (old_handle: Option<u64>)
        ensures
            final(self).live == old(self).live,
            old(self).live is Some && live_is_active ==> old_handle == old(self).retiring,
            old(self).live is Some && live_is_active ==> final(self).retiring is None,
            !(old(self).live is Some && live_is_active) ==> old_handle is None,
            !(old(self).live is Some && live_is_active) ==> final(self).retiring == old(
                self
            ).retiring,
    {
        if self.live.is_some() && live_is_active {
            let old_handle: Option<u64> = self.retiring;
            self.retiring = None;
            old_handle
        } else {
            None
        }
    }
}

/// The state of a session after several events.
pub open spec fn after_all(seat: Seat, events: Seq<LifecycleEvent>) -> Seat
    decreases events.len(),
{
    if events.len() == 0 {
        seat
    } else {
        after_event(after_all(seat, events.drop_last()), events.last())
    }
}

/// Whether an event tells that a subscription of a seat has been applied.
pub open spec fn applies_tactical(event: LifecycleEvent) -> bool {
    event is TacticalSubscribed
}

/// However the lobby is reported: without the answer to the subscription of a
/// seat a fresh connection does not become ready for commands.
pub proof fn law_the_lobby_alone_unlocks_nothing(seat: Seat, events: Seq<LifecycleEvent>)
    requires
        forall|i: int| 0 <= i < events.len() ==> !applies_tactical(#[trigger] events[i]),
    ensures
        !after_all(seat.begun(), events).tactical_ready,
    decreases events.len(),
{
    if events.len() > 0 {
        assert forall|i: int| 0 <= i < events.len() - 1 implies !applies_tactical(
            #[trigger] events.drop_last()[i],
        ) by {
            assert(events.drop_last()[i] == events[i]);
        }
        law_the_lobby_alone_unlocks_nothing(seat, events.drop_last());
        assert(!applies_tactical(events[events.len() - 1]));
    }
}

/// A loss is told once: whatever else of the lost generation comes in changes
/// nothing but single commands.
pub proof fn law_a_loss_counts_once(seat: Seat, reason: String, again: LifecycleEvent)
    requires
        again is Connected || again is BootstrapSubscribed || again is TacticalSubscribed
            || again is JoinFailed || again is ConnectionFailed || again is Disconnected,
        generation_of(again) == seat.generation,
    ensures
        ({
            let lost = after_event(
                seat,
                LifecycleEvent::Disconnected { generation: seat.generation, reason },
            );
            after_event(lost, again) == lost
        }),
{
}

/// The generation that an event belongs to.
pub open spec fn generation_of(event: LifecycleEvent) -> u64 {
    match event {
        LifecycleEvent::Connected { generation } => generation,
        LifecycleEvent::BootstrapSubscribed { generation } => generation,
        LifecycleEvent::TacticalSubscribed { generation } => generation,
        LifecycleEvent::JoinFailed { generation, .. } => generation,
        LifecycleEvent::ConnectionFailed { generation, .. } => generation,
        LifecycleEvent::Disconnected { generation, .. } => generation,
        LifecycleEvent::CommandFailed { .. } => 0,
        LifecycleEvent::TokenWarning { generation, .. } => generation,
    }
}

} // verus!
