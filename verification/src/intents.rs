//! From what a player wants to the call that asks the server for it.
use vstd::prelude::*;
use crate::axials::{ordered, AxialMap, AxialSet};
use crate::coord::Axial;
use crate::text::{append_signed, signed, text};

verus! {

/// A command that has been sent and not answered yet.
#[derive(Clone, Copy, Debug, Eq, PartialEq, Structural)]
pub enum PendingCommand {
    ExpandClusters,
    AttackClusters,
    PushFront,
    FrontRebalance,
    ExpandAll,
    Reshape,
    CancelOrders,
    Mobilization { target_bps: u32 },
}

impl PendingCommand {
    /// What the player reads.
    pub open spec fn label_text(self) -> Seq<char> {
        match self {
            PendingCommand::ExpandClusters => "Expand Clusters"@,
            PendingCommand::AttackClusters => "Attack Clusters"@,
            PendingCommand::PushFront => "Push Front"@,
            PendingCommand::FrontRebalance => "Front Rebalance"@,
            PendingCommand::ExpandAll => "Expand Perimeter"@,
            PendingCommand::Reshape => "Reshape"@,
            PendingCommand::CancelOrders => "Stop Orders"@,
            PendingCommand::Mobilization { .. } => "Mobilization"@,
        }
    }

    /// What a receipt calls the command.
    pub open spec fn receipt_text(self) -> Seq<char> {
        match self {
            PendingCommand::ExpandClusters => "issue_expand_clusters"@,
            PendingCommand::AttackClusters => "issue_attack_clusters"@,
            PendingCommand::PushFront => "issue_push_front"@,
            PendingCommand::FrontRebalance => "issue_front_rebalance"@,
            PendingCommand::ExpandAll => "issue_expand_all"@,
            PendingCommand::Reshape => "issue_reshape"@,
            PendingCommand::CancelOrders => "cancel_orders"@,
            PendingCommand::Mobilization { .. } => "set_mobilization_target"@,
        }
    }

    /// Whether the player waits for the answer.
    pub open spec fn holds_the_player(self) -> bool {
        !(self is Mobilization)
    }

    pub fn label(&self) -> (label: &'static str)
        ensures
            label@ == self.label_text(),
    {
        match self {
            PendingCommand::ExpandClusters => "Expand Clusters",
            PendingCommand::AttackClusters => "Attack Clusters",
            PendingCommand::PushFront => "Push Front",
            PendingCommand::FrontRebalance => "Front Rebalance",
            PendingCommand::ExpandAll => "Expand Perimeter",
            PendingCommand::Reshape => "Reshape",
            PendingCommand::CancelOrders => "Stop Orders",
            PendingCommand::Mobilization { .. } => "Mobilization",
        }
    }

    pub fn receipt_name(&self) -> (name: &'static str)
        ensures
            name@ == self.receipt_text(),
    {
        match self {
            PendingCommand::ExpandClusters => "issue_expand_clusters",
            PendingCommand::AttackClusters => "issue_attack_clusters",
            PendingCommand::PushFront => "issue_push_front",
            PendingCommand::FrontRebalance => "issue_front_rebalance",
            PendingCommand::ExpandAll => "issue_expand_all",
            PendingCommand::Reshape => "issue_reshape",
            PendingCommand::CancelOrders => "cancel_orders",
            PendingCommand::Mobilization { .. } => "set_mobilization_target",
        }
    }

    pub fn is_modal(&self) -> (modal: bool)
        ensures
            modal == self.holds_the_player(),
    {
        match self {
            PendingCommand::Mobilization { .. } => false,
            _ => true,
        }
    }
}

/// What a player wants. Lists of orders are in ascending order.
#[derive(Debug)]
pub enum ClientIntent {
    ExpandClusters { sources: AxialSet, focus: Axial, commitment_percent: u8 },
    AttackClusters { sources: AxialSet, targets: AxialSet, commitment_percent: u8 },
    PushFront {
        sources: AxialSet,
        supersede_order_ids: Vec<u64>,
        direction: Axial,
        commitment_percent: u8,
    },
    FrontRebalance {
        source_component_cells: AxialSet,
        source_front_seed: Axial,
        target_front_seed: Axial,
        commitment_percent: u8,
        supersede_order_ids: Vec<u64>,
    },
    ExpandAll { sources: AxialSet, supersede_order_ids: Vec<u64>, commitment_percent: u8 },
    Reshape { sources: AxialSet, targets: AxialSet, supersede_order_ids: Vec<u64> },
    CancelOrders { order_ids: Vec<u64> },
    /// A share in parts of ten thousand.
    SetMobilization { target_bps: u32 },
}

/// A call of the server.
#[derive(Debug)]
pub enum ReducerCall {
    IssueExpandClusters { sources: Vec<u32>, focus: u32, commitment_bps: u32 },
    IssueAttackClusters { sources: Vec<u32>, targets: Vec<u32>, commitment_bps: u32 },
    IssuePushFront {
        sources: Vec<u32>,
        direction_q: i32,
        direction_r: i32,
        commitment_bps: u32,
        supersede_order_ids: Vec<u64>,
    },
    IssueFrontRebalance {
        sources: Vec<u32>,
        source_front_seed: u32,
        target_front_seed: u32,
        commitment_bps: u32,
        supersede_order_ids: Vec<u64>,
    },
    IssueExpandAll { sources: Vec<u32>, commitment_bps: u32, supersede_order_ids: Vec<u64> },
    IssueReshape { sources: Vec<u32>, targets: Vec<u32>, supersede_order_ids: Vec<u64> },
    CancelOrders { order_ids: Vec<u64> },
    SetMobilizationTarget { target_bps: u32 },
}

/// What a call asks for.
pub ghost enum Call {
    ExpandClusters { sources: Seq<u32>, focus: u32, commitment: int },
    AttackClusters { sources: Seq<u32>, targets: Seq<u32>, commitment: int },
    PushFront { sources: Seq<u32>, direction: Axial, commitment: int, superseded: Seq<u64> },
    FrontRebalance {
        sources: Seq<u32>,
        from: u32,
        to: u32,
        commitment: int,
        superseded: Seq<u64>,
    },
    ExpandAll { sources: Seq<u32>, commitment: int, superseded: Seq<u64> },
    Reshape { sources: Seq<u32>, targets: Seq<u32>, superseded: Seq<u64> },
    CancelOrders { orders: Seq<u64> },
    SetMobilizationTarget { target: int },
}

impl View for ReducerCall {
    type V = Call;

    open spec fn view(&self) -> Call {
        match *self {
            ReducerCall::IssueExpandClusters { sources, focus, commitment_bps } =>
                Call::ExpandClusters { sources: sources@, focus, commitment: commitment_bps as int },
            ReducerCall::IssueAttackClusters { sources, targets, commitment_bps } =>
                Call::AttackClusters {
                sources: sources@,
                targets: targets@,
                commitment: commitment_bps as int,
            },
            ReducerCall::IssuePushFront {
                sources,
                direction_q,
                direction_r,
                commitment_bps,
                supersede_order_ids,
            } => Call::PushFront {
                sources: sources@,
                direction: Axial { q: direction_q, r: direction_r },
                commitment: commitment_bps as int,
                superseded: supersede_order_ids@,
            },
            ReducerCall::IssueFrontRebalance {
                sources,
                source_front_seed,
                target_front_seed,
                commitment_bps,
                supersede_order_ids,
            } => Call::FrontRebalance {
                sources: sources@,
                from: source_front_seed,
                to: target_front_seed,
                commitment: commitment_bps as int,
                superseded: supersede_order_ids@,
            },
            ReducerCall::IssueExpandAll { sources, commitment_bps, supersede_order_ids } =>
                Call::ExpandAll {
                sources: sources@,
                commitment: commitment_bps as int,
                superseded: supersede_order_ids@,
            },
            ReducerCall::IssueReshape { sources, targets, supersede_order_ids } => Call::Reshape {
                sources: sources@,
                targets: targets@,
                superseded: supersede_order_ids@,
            },
            ReducerCall::CancelOrders { order_ids } => Call::CancelOrders { orders: order_ids@ },
            ReducerCall::SetMobilizationTarget { target_bps } => Call::SetMobilizationTarget {
                target: target_bps as int,
            },
        }
    }
}

/// A percentage between one and a hundred, in parts of ten thousand.
pub open spec fn commitment(percent: u8) -> int {
    if percent < 1 {
        100
    } else if percent > 100 {
        10000
    } else {
        percent * 100
    }
}

fn commitment_bps(percent: u8) -> (bps: u32)
    ensures
        bps == commitment(percent),
{
    if percent < 1 {
        100
    } else if percent > 100 {
        10000
    } else {
        percent as u32 * 100
    }
}

/// The first coordinate of a list that has no number.
pub open spec fn first_missing(ids: Map<Axial, u32>, list: Seq<Axial>) -> Option<Axial>
    decreases list.len(),
{
    if list.len() == 0 {
        None
    } else if !ids.contains_key(list[0]) {
        Some(list[0])
    } else {
        first_missing(ids, list.drop_first())
    }
}

/// The numbers of a selection by ascending coordinate, or the first coordinate
/// without one.
pub open spec fn selection_ids(ids: Map<Axial, u32>, selection: Set<Axial>) -> Result<
    Seq<u32>,
    Axial,
> {
    match first_missing(ids, ordered(selection)) {
        Some(c) => Err(c),
        None => Ok(ordered(selection).map_values(|c: Axial| ids[c])),
    }
}

/// The number of a coordinate, if it has one.
pub open spec fn coordinate_id(ids: Map<Axial, u32>, c: Axial) -> Result<u32, Axial> {
    if ids.contains_key(c) {
        Ok(ids[c])
    } else {
        Err(c)
    }
}

/// What is said of a coordinate that the map does not hold.
pub open spec fn missing_text(c: Axial) -> Seq<char> {
    "hex "@ + signed(c.q as int) + ","@ + signed(c.r as int)
        + " is not present in the authoritative map"@
}

fn missing(c: Axial) -> (reason: String)
    ensures
        reason@ == missing_text(c),
{
    let mut reason = text("hex ");
    append_signed(&mut reason, c.q as i64);
    reason.append(",");
    append_signed(&mut reason, c.r as i64);
    reason.append(" is not present in the authoritative map");
    reason
}

pub fn ids_for_selection(ids: &AxialMap<u32>, selection: &AxialSet) -> (found: Result<
    Vec<u32>,
    String,
>)
    ensures
        match found {
            Ok(list) => selection_ids(ids@, selection@) == Ok::<Seq<u32>, Axial>(list@),
            Err(reason) => selection_ids(ids@, selection@) is Err && reason@ == missing_text(
                selection_ids(ids@, selection@)->Err_0,
            ),
        },
{
    let listed = selection.to_vec();
    let mut found: Vec<u32> = Vec::new();
    let mut i: usize = 0;
    assert(listed@.skip(0) =~= listed@);
    while i < listed.len()
        invariant
            i <= listed@.len(),
            listed@ == ordered(selection@),
            first_missing(ids@, listed@) == first_missing(ids@, listed@.skip(i as int)),
            found@ =~= listed@.take(i as int).map_values(|c: Axial| ids@[c]),
        decreases listed.len() - i,
    {
        assert(listed@.skip(i as int).drop_first() =~= listed@.skip(i + 1));
        assert(listed@.take(i + 1) =~= listed@.take(i as int).push(listed@[i as int]));
        match ids.get(listed[i]) {
            Some(id) => {
                found.push(*id);
            },
            None => {
                return Err(missing(listed[i]));
            },
        }
        i += 1;
    }
    assert(listed@.take(i as int) =~= listed@);
    Ok(found)
}

pub fn id_for_coordinate(ids: &AxialMap<u32>, c: Axial) -> (found: Result<u32, String>)
    ensures
        match found {
            Ok(id) => coordinate_id(ids@, c) == Ok::<u32, Axial>(id),
            Err(reason) => coordinate_id(ids@, c) == Err::<u32, Axial>(c) && reason@
                == missing_text(c),
        },
{
    match ids.get(c) {
        Some(id) => Ok(*id),
        None => Err(missing(c)),
    }
}

/// What kind of command an intent becomes.
pub open spec fn kind_of(intent: ClientIntent) -> PendingCommand {
    match intent {
        ClientIntent::ExpandClusters { .. } => PendingCommand::ExpandClusters,
        ClientIntent::AttackClusters { .. } => PendingCommand::AttackClusters,
        ClientIntent::PushFront { .. } => PendingCommand::PushFront,
        ClientIntent::FrontRebalance { .. } => PendingCommand::FrontRebalance,
        ClientIntent::ExpandAll { .. } => PendingCommand::ExpandAll,
        ClientIntent::Reshape { .. } => PendingCommand::Reshape,
        ClientIntent::CancelOrders { .. } => PendingCommand::CancelOrders,
        ClientIntent::SetMobilization { target_bps } => PendingCommand::Mobilization {
            target_bps: share(target_bps),
        },
    }
}

/// A share of at most the whole, in parts of ten thousand.
pub open spec fn share(bps: u32) -> u32 {
    if bps > 10000 {
        10000
    } else {
        bps
    }
}

/// The call that an intent becomes, or the first coordinate that stops it.
pub open spec fn planned(ids: Map<Axial, u32>, intent: ClientIntent) -> Result<Call, Axial> {
    match intent {
        ClientIntent::ExpandClusters { sources, focus, commitment_percent } => {
            match selection_ids(ids, sources@) {
                Err(c) => Err(c),
                Ok(from) => match coordinate_id(ids, focus) {
                    Err(c) => Err(c),
                    Ok(id) => Ok(
                        Call::ExpandClusters {
                            sources: from,
                            focus: id,
                            commitment: commitment(commitment_percent),
                        },
                    ),
                },
            }
        },
        ClientIntent::AttackClusters { sources, targets, commitment_percent } => {
            match selection_ids(ids, sources@) {
                Err(c) => Err(c),
                Ok(from) => match selection_ids(ids, targets@) {
                    Err(c) => Err(c),
                    Ok(to) => Ok(
                        Call::AttackClusters {
                            sources: from,
                            targets: to,
                            commitment: commitment(commitment_percent),
                        },
                    ),
                },
            }
        },
        ClientIntent::PushFront { sources, supersede_order_ids, direction, commitment_percent } => {
            match selection_ids(ids, sources@) {
                Err(c) => Err(c),
                Ok(from) => Ok(
                    Call::PushFront {
                        sources: from,
                        direction,
                        commitment: commitment(commitment_percent),
                        superseded: supersede_order_ids@,
                    },
                ),
            }
        },
        ClientIntent::FrontRebalance {
            source_component_cells,
            source_front_seed,
            target_front_seed,
            commitment_percent,
            supersede_order_ids,
        } => {
            match selection_ids(ids, source_component_cells@) {
                Err(c) => Err(c),
                Ok(sources) => match coordinate_id(ids, source_front_seed) {
                    Err(c) => Err(c),
                    Ok(from) => match coordinate_id(ids, target_front_seed) {
                        Err(c) => Err(c),
                        Ok(to) => Ok(
                            Call::FrontRebalance {
                                sources,
                                from,
                                to,
                                commitment: commitment(commitment_percent),
                                superseded: supersede_order_ids@,
                            },
                        ),
                    },
                },
            }
        },
        ClientIntent::ExpandAll { sources, supersede_order_ids, commitment_percent } => {
            match selection_ids(ids, sources@) {
                Err(c) => Err(c),
                Ok(from) => Ok(
                    Call::ExpandAll {
                        sources: from,
                        commitment: commitment(commitment_percent),
                        superseded: supersede_order_ids@,
                    },
                ),
            }
        },
        ClientIntent::Reshape { sources, targets, supersede_order_ids } => {
            match selection_ids(ids, sources@) {
                Err(c) => Err(c),
                Ok(from) => match selection_ids(ids, targets@) {
                    Err(c) => Err(c),
                    Ok(to) => Ok(
                        Call::Reshape {
                            sources: from,
                            targets: to,
                            superseded: supersede_order_ids@,
                        },
                    ),
                },
            }
        },
        ClientIntent::CancelOrders { order_ids } => Ok(Call::CancelOrders { orders: order_ids@ }),
        ClientIntent::SetMobilization { target_bps } => Ok(
            Call::SetMobilizationTarget { target: share(target_bps) as int },
        ),
    }
}

/// Turns an intent into the call for it and the command that then waits for an
/// answer.
pub fn invoke_intent(
    connected: bool,
    ids: &AxialMap<u32>,
    intent: ClientIntent,
) -> (plan: Result<(ReducerCall, PendingCommand), String>)
    ensures
        match plan {
            Ok((call, kind)) => connected && planned(ids@, intent) == Ok::<Call, Axial>(call@)
                && kind == kind_of(intent),
            Err(reason) => if connected {
                planned(ids@, intent) is Err && reason@ == missing_text(
                    planned(ids@, intent)->Err_0,
                )
            } else {
                reason@ == "SpacetimeDB connection is unavailable"@
            },
        },
{
    if !connected {
        return Err(text("SpacetimeDB connection is unavailable"));
    }
    match intent {
        ClientIntent::ExpandClusters { sources, focus, commitment_percent } => {
            let from = match ids_for_selection(ids, &sources) {
                Ok(from) => from,
                Err(reason) => return Err(reason),
            };
            let id: u32 = match id_for_coordinate(ids, focus) {
                Ok(id) => id,
                Err(reason) => return Err(reason),
            };
            Ok(
                (
                    ReducerCall::IssueExpandClusters {
                        sources: from,
                        focus: id,
                        commitment_bps: commitment_bps(commitment_percent),
                    },
                    PendingCommand::ExpandClusters,
                ),
            )
        },
        ClientIntent::AttackClusters { sources, targets, commitment_percent } => {
            let from = match ids_for_selection(ids, &sources) {
                Ok(from) => from,
                Err(reason) => return Err(reason),
            };
            let to = match ids_for_selection(ids, &targets) {
                Ok(to) => to,
                Err(reason) => return Err(reason),
            };
            Ok(
                (
                    ReducerCall::IssueAttackClusters {
                        sources: from,
                        targets: to,
                        commitment_bps: commitment_bps(commitment_percent),
                    },
                    PendingCommand::AttackClusters,
                ),
            )
        },
        ClientIntent::PushFront { sources, supersede_order_ids, direction, commitment_percent } => {
            let from = match ids_for_selection(ids, &sources) {
                Ok(from) => from,
                Err(reason) => return Err(reason),
            };
            Ok(
                (
                    ReducerCall::IssuePushFront {
                        sources: from,
                        direction_q: direction.q,
                        direction_r: direction.r,
                        commitment_bps: commitment_bps(commitment_percent),
                        supersede_order_ids,
                    },
                    PendingCommand::PushFront,
                ),
            )
        },
        ClientIntent::FrontRebalance {
            source_component_cells,
            source_front_seed,
            target_front_seed,
            commitment_percent,
            supersede_order_ids,
        } => {
            let sources = match ids_for_selection(ids, &source_component_cells) {
                Ok(sources) => sources,
                Err(reason) => return Err(reason),
            };
            let from: u32 = match id_for_coordinate(ids, source_front_seed) {
                Ok(from) => from,
                Err(reason) => return Err(reason),
            };
            let to: u32 = match id_for_coordinate(ids, target_front_seed) {
                Ok(to) => to,
                Err(reason) => return Err(reason),
            };
            Ok(
                (
                    ReducerCall::IssueFrontRebalance {
                        sources,
                        source_front_seed: from,
                        target_front_seed: to,
                        commitment_bps: commitment_bps(commitment_percent),
                        supersede_order_ids,
                    },
                    PendingCommand::FrontRebalance,
                ),
            )
        },
        ClientIntent::ExpandAll { sources, supersede_order_ids, commitment_percent } => {
            let from = match ids_for_selection(ids, &sources) {
                Ok(from) => from,
                Err(reason) => return Err(reason),
            };
            Ok(
                (
                    ReducerCall::IssueExpandAll {
                        sources: from,
                        commitment_bps: commitment_bps(commitment_percent),
                        supersede_order_ids,
                    },
                    PendingCommand::ExpandAll,
                ),
            )
        },
        ClientIntent::Reshape { sources, targets, supersede_order_ids } => {
            let from = match ids_for_selection(ids, &sources) {
                Ok(from) => from,
                Err(reason) => return Err(reason),
            };
            let to = match ids_for_selection(ids, &targets) {
                Ok(to) => to,
                Err(reason) => return Err(reason),
            };
            Ok(
                (
                    ReducerCall::IssueReshape { sources: from, targets: to, supersede_order_ids },
                    PendingCommand::Reshape,
                ),
            )
        },
        ClientIntent::CancelOrders { order_ids } => Ok(
            (ReducerCall::CancelOrders { order_ids }, PendingCommand::CancelOrders),
        ),
        ClientIntent::SetMobilization { target_bps } => {
            let target_bps: u32 = if target_bps > 10000 {
                10000
            } else {
                target_bps
            };
            Ok(
                (
                    ReducerCall::SetMobilizationTarget { target_bps },
                    PendingCommand::Mobilization { target_bps },
                ),
            )
        },
    }
}

} // verus!
