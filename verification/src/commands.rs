//! The commands that wait for an answer, and how receipts answer them.
use vstd::prelude::*;
use vstd::string::*;
use crate::intents::PendingCommand;
use crate::table::{lemma_keys_are_distinct, ordered_keys, KeySet, Table};
use crate::text::{append_decimal, decimal, text};

verus! {

#[derive(Clone, Copy, Debug, Eq, PartialEq, Structural)]
pub enum ReceiptStatus {
    Accepted,
    Rejected,
}

/// What the server says of a command.
#[derive(Debug)]
pub struct CommandReceipt {
    pub receipt_key: u128,
    pub player_id: u16,
    pub client_command_id: u64,
    pub command_name: String,
    pub status: ReceiptStatus,
    /// The order that the command became; zero for none.
    pub order_id: u64,
    pub message: String,
}

/// What the player is told.
#[derive(Debug)]
pub enum ServerUpdate {
    SubmissionStarted { command_id: u64 },
    Accepted { command_id: u64, summary: String },
    Rejected { command_id: Option<u64>, reason: String },
    MobilizationChanged { command_id: u64, target_bps: u32 },
}

/// What an update says.
pub ghost enum Update {
    SubmissionStarted { command_id: u64 },
    Accepted { command_id: u64, summary: Seq<char> },
    Rejected { command_id: Option<u64>, reason: Seq<char> },
    MobilizationChanged { command_id: u64, target_bps: u32 },
}

impl Update {
    /// The command that an update answers.
    pub open spec fn answers(self) -> Option<u64> {
        match self {
            Update::SubmissionStarted { .. } => None,
            Update::Accepted { command_id, .. } => Some(command_id),
            Update::Rejected { command_id, .. } => command_id,
            Update::MobilizationChanged { command_id, .. } => Some(command_id),
        }
    }
}

impl View for ServerUpdate {
    type V = Update;

    open spec fn view(&self) -> Update {
        match *self {
            ServerUpdate::SubmissionStarted { command_id } => Update::SubmissionStarted {
                command_id,
            },
            ServerUpdate::Accepted { command_id, summary } => Update::Accepted {
                command_id,
                summary: summary@,
            },
            ServerUpdate::Rejected { command_id, reason } => Update::Rejected {
                command_id,
                reason: reason@,
            },
            ServerUpdate::MobilizationChanged { command_id, target_bps } =>
                Update::MobilizationChanged { command_id, target_bps },
        }
    }
}

/// What a list of updates says.
pub open spec fn said(updates: Seq<ServerUpdate>) -> Seq<Update> {
    updates.map_values(|u: ServerUpdate| u@)
}

/// The state of the commands.
pub ghost struct Book {
    pub pending: Map<u128, PendingCommand>,
    pub processed: Set<u128>,
    pub terminal: Set<u128>,
    pub next: u64,
    pub ready: bool,
}

impl Book {
    /// After a command number has been seen: later numbers are given next. With
    /// the last number the numbers are used up.
    pub open spec fn seen(self, command_id: u64) -> Book {
        if command_id == u64::MAX {
            Book { next: u64::MAX, ready: false, ..self }
        } else if self.next <= command_id {
            Book { next: (command_id + 1) as u64, ..self }
        } else {
            self
        }
    }

    /// After one receipt, with what the player is told.
    pub open spec fn after_receipt(self, local_player: u32, receipt: CommandReceipt) -> (
        Book,
        Option<Update>,
    ) {
        let id = receipt.client_command_id;
        let key = id as u128;
        if receipt.player_id as u32 != local_player {
            (self, None)
        } else {
            let seen = self.seen(id);
            if seen.processed.contains(receipt.receipt_key) {
                (seen, None)
            } else {
                let noted = Book {
                    processed: seen.processed.insert(receipt.receipt_key),
                    terminal: seen.terminal.insert(key),
                    pending: seen.pending.remove(key),
                    ..seen
                };
                if !seen.pending.contains_key(key) {
                    (noted, None)
                } else {
                    (
                        noted,
                        Some(
                            if seen.terminal.contains(key) {
                                Update::Rejected {
                                    command_id: Some(id),
                                    reason:
                                        "Command ID collided with an earlier terminal command; retry"@,
                                }
                            } else {
                                outcome(seen.pending[key], receipt)
                            },
                        ),
                    )
                }
            }
        }
    }

    /// After several receipts, the first one first.
    pub open spec fn after_receipts(self, local_player: u32, receipts: Seq<CommandReceipt>) -> (
        Book,
        Seq<Update>,
    )
        decreases receipts.len(),
    {
        if receipts.len() == 0 {
            (self, seq![])
        } else {
            let (book, updates) = self.after_receipts(local_player, receipts.drop_last());
            let (after, update) = book.after_receipt(local_player, receipts.last());
            (
                after,
                match update {
                    Some(u) => updates.push(u),
                    None => updates,
                },
            )
        }
    }

    /// After the receipts of earlier sessions: what does not wait is closed.
    pub open spec fn seeded(self, local_player: u32, receipts: Seq<CommandReceipt>) -> Book
        decreases receipts.len(),
    {
        if receipts.len() == 0 {
            self
        } else {
            let book = self.seeded(local_player, receipts.drop_last());
            let receipt = receipts.last();
            let key = receipt.client_command_id as u128;
            if receipt.player_id as u32 != local_player {
                book
            } else {
                let seen = book.seen(receipt.client_command_id);
                if seen.pending.contains_key(key) {
                    seen
                } else {
                    Book {
                        processed: seen.processed.insert(receipt.receipt_key),
                        terminal: seen.terminal.insert(key),
                        ..seen
                    }
                }
            }
        }
    }

    /// Whether the numbers that wait or are closed are numbers of commands.
    pub open spec fn is_numbered(self) -> bool {
        &&& forall|k: u128| #[trigger] self.pending.contains_key(k) ==> k <= u64::MAX
        &&& forall|k: u128| #[trigger] self.terminal.contains(k) ==> k <= u64::MAX
        &&& self.pending.dom().finite()
        &&& self.terminal.finite()
    }

    /// After the greatest number of a set has been seen.
    pub open spec fn seen_last(self, keys: Seq<u128>) -> Book {
        if keys.len() == 0 {
            self
        } else {
            self.seen(keys.last() as u64)
        }
    }
}

/// What the player is told when a receipt answers a command.
pub open spec fn outcome(pending: PendingCommand, receipt: CommandReceipt) -> Update {
    let id = receipt.client_command_id;
    if receipt.command_name@ != pending.receipt_text() {
        Update::Rejected {
            command_id: Some(id),
            reason: "Command ID collision: expected "@ + pending.receipt_text() + ", received "@
                + receipt.command_name@ + "; retry"@,
        }
    } else {
        match receipt.status {
            ReceiptStatus::Accepted => match pending {
                PendingCommand::Mobilization { target_bps } => Update::MobilizationChanged {
                    command_id: id,
                    target_bps,
                },
                _ => Update::Accepted {
                    command_id: id,
                    summary: pending.label_text() + " accepted"@ + (if receipt.order_id != 0 {
                        " · order #"@ + decimal(receipt.order_id as int)
                    } else {
                        seq![]
                    }),
                },
            },
            ReceiptStatus::Rejected => Update::Rejected {
                command_id: Some(id),
                reason: receipt.message@,
            },
        }
    }
}

fn outcome_of(pending: PendingCommand, receipt: CommandReceipt) -> (update: ServerUpdate)
    ensures
        update@ == outcome(pending, receipt),
{
    let id: u64 = receipt.client_command_id;
    let expected = text(pending.receipt_name());
    if receipt.command_name != expected {
        let mut reason = text("Command ID collision: expected ");
        reason.append(pending.receipt_name());
        reason.append(", received ");
        reason.append(receipt.command_name.as_str());
        reason.append("; retry");
        return ServerUpdate::Rejected { command_id: Some(id), reason };
    }
    match receipt.status {
        ReceiptStatus::Accepted => match pending {
            PendingCommand::Mobilization { target_bps } => ServerUpdate::MobilizationChanged {
                command_id: id,
                target_bps,
            },
            _ => {
                let mut summary = text(pending.label());
                summary.append(" accepted");
                if receipt.order_id != 0 {
                    summary.append(" · order #");
                    append_decimal(&mut summary, receipt.order_id);
                }
                assert(summary@ =~= pending.label_text() + " accepted"@ + (if receipt.order_id
                    != 0 {
                    " · order #"@ + decimal(receipt.order_id as int)
                } else {
                    seq![]
                }));
                ServerUpdate::Accepted { command_id: id, summary }
            },
        },
        ReceiptStatus::Rejected => ServerUpdate::Rejected {
            command_id: Some(id),
            reason: receipt.message,
        },
    }
}

/// The first command number of a session: the time in milliseconds, held to
/// forty-four bits, before twenty bits that tell sessions apart.
pub open spec fn command_floor(milliseconds: u128, nonce: u64) -> int {
    let time = if milliseconds > 0xfff_ffff_ffff {
        0xfff_ffff_ffff
    } else {
        milliseconds as int
    };
    time * 0x10_0000 + nonce as int % 0x10_0000
}

pub fn session_command_floor(milliseconds: u128, nonce: u64) -> (floor: u64)
    ensures
        floor == command_floor(milliseconds, nonce),
{
    let time: u64 = if milliseconds > 0xfff_ffff_ffff {
        0xfff_ffff_ffff
    } else {
        milliseconds as u64
    };
    assert((time << 20) | (nonce & 0xf_ffff) == time * 0x10_0000 + nonce % 0x10_0000)
        by (bit_vector)
        requires
            time <= 0xfff_ffff_ffff,
    ;
    (time << 20) | (nonce & 0xf_ffff)
}

/// The commands of a client.
#[derive(Debug)]
pub struct CommandBook {
    pub pending: Table<PendingCommand>,
    pub processed_receipts: KeySet,
    pub terminal_command_ids: KeySet,
    pub next_command_id: u64,
    pub command_ids_ready: bool,
}

impl View for CommandBook {
    type V = Book;

    open spec fn view(&self) -> Book {
        Book {
            pending: self.pending@,
            processed: self.processed_receipts@,
            terminal: self.terminal_command_ids@,
            next: self.next_command_id,
            ready: self.command_ids_ready,
        }
    }
}

impl CommandBook {
    pub fn new(first_command_id: u64) -> (book: CommandBook)
        ensures
            book@ == (Book {
                pending: Map::empty(),
                processed: Set::empty(),
                terminal: Set::empty(),
                next: first_command_id,
                ready: false,
            }),
            book@.is_numbered(),
    {
        let book = CommandBook {
            pending: Table::new(),
            processed_receipts: KeySet::new(),
            terminal_command_ids: KeySet::new(),
            next_command_id: first_command_id,
            command_ids_ready: false,
        };
        assert(book@.pending.dom() =~= Set::<u128>::empty());
        book
    }

    /// Gives a number to a command, while there are numbers.
    pub fn allocate_command_id(&mut self) -> (id: Option<u64>)
        ensures
            old(self)@.next == u64::MAX ==> id is None && final(self)@ == old(self)@,
            old(self)@.next < u64::MAX ==> id == Some(old(self)@.next) && final(self)@ == (Book {
                next: (old(self)@.next + 1) as u64,
                ..old(self)@
            }),
    {
        let command_id: u64 = self.next_command_id;
        if command_id == u64::MAX {
            return None;
        }
        self.next_command_id = command_id + 1;
        Some(command_id)
    }

    /// Takes note of a number that is in use.
    pub fn observe_command_id(&mut self, command_id: u64)
        ensures
            final(self)@ == old(self)@.seen(command_id),
    {
        if command_id == u64::MAX {
            self.next_command_id = u64::MAX;
            self.command_ids_ready = false;
        } else if self.next_command_id <= command_id {
            self.next_command_id = command_id + 1;
        }
    }

    /// Takes the receipts of earlier sessions into account, so that numbers
    /// are not given twice.
    pub fn seed_command_ids(&mut self, local_player: u32, receipts: &Vec<CommandReceipt>)
        requires
            old(self)@.is_numbered(),
        ensures
            final(self)@ == ({
                let known = old(self)@.seeded(local_player, receipts@);
                let last = known.seen_last(ordered_keys(known.pending.dom())).seen_last(
                    ordered_keys(known.terminal),
                );
                Book { ready: last.next != u64::MAX, ..last }
            }),
            final(self)@.is_numbered(),
    {
        let ghost before = self@;
        let mut i: usize = 0;
        assert(receipts@.take(0) =~= Seq::<CommandReceipt>::empty());
        while i < receipts.len()
            invariant
                i <= receipts@.len(),
                self@ == before.seeded(local_player, receipts@.take(i as int)),
                self@.is_numbered(),
            decreases receipts.len() - i,
        {
            assert(receipts@.take(i + 1).drop_last() =~= receipts@.take(i as int));
            let receipt = &receipts[i];
            if receipt.player_id as u32 == local_player {
                self.observe_command_id(receipt.client_command_id);
                if !self.pending.contains(receipt.client_command_id as u128) {
                    self.processed_receipts.insert(receipt.receipt_key);
                    self.terminal_command_ids.insert(receipt.client_command_id as u128);
                }
            }
            i += 1;
        }
        assert(receipts@.take(i as int) =~= receipts@);
        let waiting = self.pending.keys();
        proof {
            assert forall|i: int| 0 <= i < waiting@.len() implies #[trigger] waiting@[i]
                <= u64::MAX by {
                assert(waiting@.to_set().contains(waiting@[i]));
                assert(self@.pending.contains_key(waiting@[i]));
            }
        }
        self.observe_last(&waiting);
        let closed = self.terminal_command_ids.to_vec();
        proof {
            assert forall|i: int| 0 <= i < closed@.len() implies #[trigger] closed@[i]
                <= u64::MAX by {
                assert(closed@.to_set().contains(closed@[i]));
                assert(self@.terminal.contains(closed@[i]));
            }
        }
        self.observe_last(&closed);
        self.command_ids_ready = self.next_command_id != u64::MAX;
    }

    fn observe_last(&mut self, keys: &Vec<u128>)
        requires
            forall|i: int| 0 <= i < keys@.len() ==> #[trigger] keys@[i] <= u64::MAX,
        ensures
            final(self)@ == old(self)@.seen_last(keys@),
    {
        if keys.len() > 0 {
            self.observe_command_id(keys[keys.len() - 1] as u64);
        }
    }

    /// Lets a command wait for its answer.
    pub fn submit(&mut self, command_id: u64, kind: PendingCommand)
        ensures
            final(self)@ == (Book {
                pending: old(self)@.pending.insert(command_id as u128, kind),
                ..old(self)@
            }),
            old(self)@.is_numbered() ==> final(self)@.is_numbered(),
    {
        self.pending.insert(command_id as u128, kind);
    }

    /// Closes a command that could not be sent.
    pub fn refuse(&mut self, command_id: u64, reason: String) -> (update: ServerUpdate)
        ensures
            final(self)@ == (Book {
                terminal: old(self)@.terminal.insert(command_id as u128),
                ..old(self)@
            }),
            update@ == (Update::Rejected { command_id: Some(command_id), reason: reason@ }),
            old(self)@.is_numbered() ==> final(self)@.is_numbered(),
    {
        self.terminal_command_ids.insert(command_id as u128);
        ServerUpdate::Rejected { command_id: Some(command_id), reason }
    }

    /// Closes a command that failed on its way; the player is told if it was
    /// waiting and had not been closed.
    pub fn fail(&mut self, command_id: u64, reason: String) -> (update: Option<ServerUpdate>)
        ensures
            old(self)@.terminal.contains(command_id as u128) ==> final(self)@ == old(self)@
                && update is None,
            !old(self)@.terminal.contains(command_id as u128) ==> final(self)@ == (Book {
                terminal: old(self)@.terminal.insert(command_id as u128),
                pending: old(self)@.pending.remove(command_id as u128),
                ..old(self)@
            }) && match update {
                Some(u) => old(self)@.pending.contains_key(command_id as u128) && u@
                    == (Update::Rejected { command_id: Some(command_id), reason: reason@ }),
                None => !old(self)@.pending.contains_key(command_id as u128),
            },
            old(self)@.is_numbered() ==> final(self)@.is_numbered(),
    {
        let fresh: bool = self.terminal_command_ids.insert(command_id as u128);
        if !fresh {
            assert(self@.terminal =~= old(self)@.terminal);
            return None;
        }
        match self.pending.remove(command_id as u128) {
            Some(_) => Some(ServerUpdate::Rejected { command_id: Some(command_id), reason }),
            None => None,
        }
    }

    /// Closes everything that waits: its outcome is unknown. The player is told
    /// of what they wait for.
    pub fn lose_all(&mut self) -> (updates: Vec<ServerUpdate>)
        requires
            old(self)@.is_numbered(),
        ensures
            final(self)@.pending == Map::<u128, PendingCommand>::empty(),
            final(self)@.terminal == old(self)@.terminal.union(old(self)@.pending.dom()),
            final(self)@.processed == old(self)@.processed,
            final(self)@.next == old(self)@.next,
            final(self)@.ready == old(self)@.ready,
            final(self)@.is_numbered(),
            said(updates@) == losses(
                old(self)@.pending,
                ordered_keys(old(self)@.pending.dom()),
            ),
    {
        let ghost before = self@;
        let keys = self.pending.keys();
        let mut updates: Vec<ServerUpdate> = Vec::new();
        let mut i: usize = 0;
        proof {
            lemma_keys_are_distinct(keys@);
            assert(keys@.take(0) =~= Seq::<u128>::empty());
            assert(said(updates@) =~= seq![]);
            assert(before.terminal.union(keys@.take(0).to_set()) =~= before.terminal);
        }
        while i < keys.len()
            invariant
                i <= keys@.len(),
                before.is_numbered(),
                keys@.no_duplicates(),
                keys@.to_set() == before.pending.dom(),
                self@.pending == before.pending,
                self@.terminal == before.terminal.union(keys@.take(i as int).to_set()),
                self@.processed == before.processed,
                self@.next == before.next,
                self@.ready == before.ready,
                said(updates@) == losses(before.pending, keys@.take(i as int)),
            decreases keys.len() - i,
        {
            let key = keys[i];
            proof {
                assert(keys@.to_set().contains(key));
                assert(before.pending.contains_key(key));
                assert(keys@.take(i + 1) =~= keys@.take(i as int).push(key));
                assert(keys@.take(i + 1).drop_last() =~= keys@.take(i as int));
                crate::axials::lemma_to_set_push(keys@.take(i as int), key);
            }
            self.terminal_command_ids.insert(key);
            assert(self@.terminal =~= before.terminal.union(keys@.take(i + 1).to_set()));
            let ghost told = updates@;
            match self.pending.get(key) {
                Some(pending) => {
                    if pending.is_modal() {
                        let mut reason = text(pending.label());
                        reason.append(
                            " outcome is unknown after connection loss; retry after reconnect",
                        );
                        updates.push(
                            ServerUpdate::Rejected { command_id: Some(key as u64), reason },
                        );
                        assert(said(updates@) =~= said(told).push(updates@.last()@));
                    }
                },
                None => {
                    vstd::pervasive::unreached()
                },
            }
            i += 1;
        }
        self.pending = Table::new();
        proof {
            assert(keys@.take(i as int) =~= keys@);
            assert(self@.terminal =~= before.terminal.union(before.pending.dom()));
            assert forall|k: u128| #[trigger] self@.terminal.contains(k) implies k <= u64::MAX by {
                if !before.terminal.contains(k) {
                    assert(before.pending.contains_key(k));
                }
            }
            assert(self@.pending.dom() =~= Set::<u128>::empty());
        }
        updates
    }

    /// Answers one command.
    fn process_receipt(&mut self, local_player: u32, receipt: CommandReceipt) -> (update: Option<
        ServerUpdate,
    >)
        requires
            old(self)@.is_numbered(),
        ensures
            final(self)@ == old(self)@.after_receipt(local_player, receipt).0,
            final(self)@.is_numbered(),
            match (update, old(self)@.after_receipt(local_player, receipt).1) {
                (Some(u), Some(expected)) => u@ == expected,
                (None, None) => true,
                _ => false,
            },
    {
        if receipt.player_id as u32 != local_player {
            return None;
        }
        self.observe_command_id(receipt.client_command_id);
        let ghost seen = self@;
        let fresh: bool = self.processed_receipts.insert(receipt.receipt_key);
        if !fresh {
            assert(self@.processed =~= seen.processed);
            return None;
        }
        let key: u128 = receipt.client_command_id as u128;
        match self.pending.remove(key) {
            Some(pending) => {
                let open: bool = self.terminal_command_ids.insert(key);
                if !open {
                    return Some(
                        ServerUpdate::Rejected {
                            command_id: Some(receipt.client_command_id),
                            reason: text(
                                "Command ID collided with an earlier terminal command; retry",
                            ),
                        },
                    );
                }
                Some(outcome_of(pending, receipt))
            },
            None => {
                self.terminal_command_ids.insert(key);
                None
            },
        }
    }

    /// Answers the commands that receipts are about.
    pub fn process_receipts(
        &mut self,
        local_player: u32,
        receipts: Vec<CommandReceipt>,
    ) -> (updates: Vec<ServerUpdate>)
        requires
            old(self)@.is_numbered(),
        ensures
            final(self)@ == old(self)@.after_receipts(local_player, receipts@).0,
            said(updates@) == old(self)@.after_receipts(local_player, receipts@).1,
            final(self)@.is_numbered(),
    {
        let ghost before = self@;
        let ghost all = receipts@;
        let mut updates: Vec<ServerUpdate> = Vec::new();
        proof {
            assert(all.take(0) =~= Seq::<CommandReceipt>::empty());
            assert(said(updates@) =~= seq![]);
        }
        for receipt in it: receipts
            invariant
                it.seq() == all,
                self@.is_numbered(),
                self@ == before.after_receipts(local_player, all.take(it.index() as int)).0,
                said(updates@) == before.after_receipts(
                    local_player,
                    all.take(it.index() as int),
                ).1,
        {
            let ghost done = all.take(it.index() as int);
            let ghost told = updates@;
            proof {
                assert(all.take(it.index() + 1).drop_last() =~= done);
                assert(all.take(it.index() + 1).last() == receipt);
            }
            match self.process_receipt(local_player, receipt) {
                Some(update) => {
                    updates.push(update);
                    assert(said(updates@) =~= said(told).push(update@));
                },
                None => {},
            }
        }
        assert(all.take(all.len() as int) =~= all);
        updates
    }
}

/// What the player is told of commands whose outcome is unknown.
pub open spec fn losses(pending: Map<u128, PendingCommand>, keys: Seq<u128>) -> Seq<Update>
    decreases keys.len(),
{
    if keys.len() == 0 {
        seq![]
    } else {
        let rest = losses(pending, keys.drop_last());
        let command = pending[keys.last()];
        if command.holds_the_player() {
            rest.push(
                Update::Rejected {
                    command_id: Some(keys.last() as u64),
                    reason: command.label_text()
                        + " outcome is unknown after connection loss; retry after reconnect"@,
                },
            )
        } else {
            rest
        }
    }
}

/// A receipt that says something to the player answers a command that was
/// waiting, and closes it.
pub proof fn law_an_answer_closes_its_command(
    book: Book,
    local_player: u32,
    receipt: CommandReceipt,
)
    ensures
        ({
            let (after, update) = book.after_receipt(local_player, receipt);
            update is Some ==> {
                let id = update.unwrap().answers();
                &&& id == Some(receipt.client_command_id)
                &&& book.pending.contains_key(receipt.client_command_id as u128)
                &&& !after.pending.contains_key(receipt.client_command_id as u128)
                &&& after.terminal.contains(receipt.client_command_id as u128)
            }
        }),
{
}

/// A receipt counts once: the second time it says nothing and changes nothing.
pub proof fn law_a_receipt_counts_once(book: Book, local_player: u32, receipt: CommandReceipt)
    ensures
        ({
            let once = book.after_receipt(local_player, receipt).0;
            once.after_receipt(local_player, receipt) == (once, None::<Update>)
        }),
{
}

/// Whatever receipts come in: a number that is given next has not been seen in
/// them, unless the numbers are used up.
pub proof fn law_numbers_are_fresh(
    book: Book,
    local_player: u32,
    receipts: Seq<CommandReceipt>,
    i: int,
)
    requires
        0 <= i < receipts.len(),
        receipts[i].player_id as u32 == local_player,
    ensures
        ({
            let after = book.after_receipts(local_player, receipts).0;
            after.next == u64::MAX || receipts[i].client_command_id < after.next
        }),
    decreases receipts.len(),
{
    let before = book.after_receipts(local_player, receipts.drop_last()).0;
    if i < receipts.len() - 1 {
        law_numbers_are_fresh(book, local_player, receipts.drop_last(), i);
        assert(receipts.drop_last()[i] == receipts[i]);
    }
}

} // verus!
