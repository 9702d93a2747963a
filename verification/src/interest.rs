//! What the client asks the server to report.
use vstd::prelude::*;
use crate::coord::Axial;
use crate::noise::floor_quotient;
use crate::text::{append_decimal, append_signed, decimal, signed, text};

verus! {

/// Up to so many players everything is reported to everybody.
pub const HIGH_SCALE_PLAYER_THRESHOLD: u16 = 8;

/// How many chunks around the focus are reported in a larger match.
pub const HIGH_SCALE_INTEREST_CHUNK_RADIUS: i16 = 2;

/// The chunks around a focus whose cells are reported.
#[derive(Clone, Copy, Debug, Eq, PartialEq, Structural)]
pub struct SpatialInterest {
    pub focus_chunk_q: i16,
    pub focus_chunk_r: i16,
    pub radius: i16,
}

impl SpatialInterest {
    pub fn center(self) -> (center: (i16, i16))
        ensures
            center == (self.focus_chunk_q, self.focus_chunk_r),
    {
        (self.focus_chunk_q, self.focus_chunk_r)
    }
}

/// The texts of a list.
pub open spec fn texts(list: Seq<String>) -> Seq<Seq<char>> {
    list.map_values(|s: String| s@)
}

/// The queries before a seat is known: terrain, match and players.
pub open spec fn bootstrap_texts() -> Seq<Seq<char>> {
    seq![
        "SELECT * FROM cell_terrain"@,
        "SELECT * FROM match_config"@,
        "SELECT * FROM match_state"@,
        "SELECT * FROM player_slot"@,
        "SELECT * FROM player_state"@,
    ]
}

pub fn bootstrap_subscription_queries() -> (queries: Vec<String>)
    ensures
        texts(queries@) == bootstrap_texts(),
{
    let mut queries: Vec<String> = Vec::new();
    queries.push(text("SELECT * FROM cell_terrain"));
    queries.push(text("SELECT * FROM match_config"));
    queries.push(text("SELECT * FROM match_state"));
    queries.push(text("SELECT * FROM player_slot"));
    queries.push(text("SELECT * FROM player_state"));
    assert(texts(queries@) =~= bootstrap_texts());
    queries
}

/// A query with a player's number at its end.
pub open spec fn of_player(query: Seq<char>, player: u16) -> Seq<char> {
    query + decimal(player as int)
}

fn query_of_player(query: &str, player: u16) -> (out: String)
    ensures
        out@ == of_player(query@, player),
{
    let mut out = text(query);
    append_decimal(&mut out, player as u64);
    out
}

pub open spec fn packet_text(player_filter: Option<u16>) -> Seq<char> {
    match player_filter {
        Some(player) => of_player("SELECT * FROM transit_packet WHERE owner_player_id = "@, player),
        None => "SELECT * FROM transit_packet"@,
    }
}

pub open spec fn route_text(player_filter: Option<u16>) -> Seq<char> {
    match player_filter {
        Some(player) => of_player("SELECT * FROM transit_route WHERE player_id = "@, player),
        None => "SELECT * FROM transit_route"@,
    }
}

pub fn packet_query(player_filter: Option<u16>) -> (query: String)
    ensures
        query@ == packet_text(player_filter),
{
    match player_filter {
        Some(player) => query_of_player(
            "SELECT * FROM transit_packet WHERE owner_player_id = ",
            player,
        ),
        None => text("SELECT * FROM transit_packet"),
    }
}

pub fn route_query(player_filter: Option<u16>) -> (query: String)
    ensures
        query@ == route_text(player_filter),
{
    match player_filter {
        Some(player) => query_of_player("SELECT * FROM transit_route WHERE player_id = ", player),
        None => text("SELECT * FROM transit_route"),
    }
}

/// The queries of a seat: everything in a small match, and what concerns the
/// player in a large one.
pub open spec fn tactical_texts(player_count: u16, local_player: u16) -> Seq<Seq<char>> {
    if player_count <= HIGH_SCALE_PLAYER_THRESHOLD {
        seq![
            "SELECT * FROM cell_state"@,
            "SELECT * FROM combat_front"@,
            "SELECT * FROM command_receipt"@,
            "SELECT * FROM mobilization_policy"@,
            "SELECT * FROM transfer_destination"@,
            "SELECT * FROM transfer_order"@,
            "SELECT * FROM transfer_source"@,
            route_text(None),
            packet_text(None),
        ]
    } else {
        seq![
            of_player("SELECT * FROM cell_state WHERE owner_player_id = "@, local_player),
            of_player("SELECT * FROM combat_front WHERE attacker_player_id = "@, local_player),
            of_player("SELECT * FROM combat_front WHERE defender_player_id = "@, local_player),
            of_player("SELECT * FROM command_receipt WHERE player_id = "@, local_player),
            of_player("SELECT * FROM mobilization_policy WHERE player_id = "@, local_player),
            of_player("SELECT * FROM transfer_destination WHERE player_id = "@, local_player),
            of_player("SELECT * FROM transfer_order WHERE player_id = "@, local_player),
            of_player("SELECT * FROM transfer_source WHERE player_id = "@, local_player),
            route_text(Some(local_player)),
            packet_text(Some(local_player)),
        ]
    }
}

pub fn tactical_subscription_queries(player_count: u16, local_player: u16) -> (queries: Vec<String>)
    ensures
        texts(queries@) == tactical_texts(player_count, local_player),
{
    let mut queries: Vec<String> = Vec::new();
    if player_count <= HIGH_SCALE_PLAYER_THRESHOLD {
        queries.push(text("SELECT * FROM cell_state"));
        queries.push(text("SELECT * FROM combat_front"));
        queries.push(text("SELECT * FROM command_receipt"));
        queries.push(text("SELECT * FROM mobilization_policy"));
        queries.push(text("SELECT * FROM transfer_destination"));
        queries.push(text("SELECT * FROM transfer_order"));
        queries.push(text("SELECT * FROM transfer_source"));
        queries.push(route_query(None));
        queries.push(packet_query(None));
    } else {
        let me: u16 = local_player;
        queries.push(query_of_player("SELECT * FROM cell_state WHERE owner_player_id = ", me));
        queries.push(query_of_player("SELECT * FROM combat_front WHERE attacker_player_id = ", me));
        queries.push(query_of_player("SELECT * FROM combat_front WHERE defender_player_id = ", me));
        queries.push(query_of_player("SELECT * FROM command_receipt WHERE player_id = ", me));
        queries.push(query_of_player("SELECT * FROM mobilization_policy WHERE player_id = ", me));
        queries.push(query_of_player("SELECT * FROM transfer_destination WHERE player_id = ", me));
        queries.push(query_of_player("SELECT * FROM transfer_order WHERE player_id = ", me));
        queries.push(query_of_player("SELECT * FROM transfer_source WHERE player_id = ", me));
        queries.push(route_query(Some(me)));
        queries.push(packet_query(Some(me)));
    }
    assert(texts(queries@) =~= tactical_texts(player_count, local_player));
    queries
}

/// A number held to the range of a chunk coordinate.
pub open spec fn held(x: int) -> int {
    if x < i16::MIN {
        i16::MIN as int
    } else if x > i16::MAX {
        i16::MAX as int
    } else {
        x
    }
}

fn hold(x: i32) -> (y: i16)
    ensures
        y == held(x as int),
{
    if x < -32768 {
        -32768
    } else if x > 32767 {
        32767
    } else {
        x as i16
    }
}

/// The query for the cells of the chunks around a focus.
pub open spec fn spatial_text(interest: SpatialInterest) -> Seq<char> {
    "SELECT * FROM cell_state WHERE chunk_q >= "@ + signed(
        held(interest.focus_chunk_q - interest.radius),
    ) + " AND chunk_q <= "@ + signed(held(interest.focus_chunk_q + interest.radius))
        + " AND chunk_r >= "@ + signed(held(interest.focus_chunk_r - interest.radius))
        + " AND chunk_r <= "@ + signed(held(interest.focus_chunk_r + interest.radius))
}

pub fn spatial_cell_state_queries(interest: SpatialInterest) -> (queries: Vec<String>)
    ensures
        texts(queries@) == seq![spatial_text(interest)],
{
    let q: i32 = interest.focus_chunk_q as i32;
    let r: i32 = interest.focus_chunk_r as i32;
    let radius: i32 = interest.radius as i32;
    let mut query = text("SELECT * FROM cell_state WHERE chunk_q >= ");
    append_signed(&mut query, hold(q - radius) as i64);
    query.append(" AND chunk_q <= ");
    append_signed(&mut query, hold(q + radius) as i64);
    query.append(" AND chunk_r >= ");
    append_signed(&mut query, hold(r - radius) as i64);
    query.append(" AND chunk_r <= ");
    append_signed(&mut query, hold(r + radius) as i64);
    let mut queries: Vec<String> = Vec::new();
    queries.push(query);
    assert(texts(queries@) =~= seq![spatial_text(interest)]);
    queries
}

/// A count of at least one.
pub open spec fn one_or_more(n: u16) -> int {
    if n == 0 {
        1
    } else {
        n as int
    }
}

/// The chunk of an offset; zero where it has no number.
pub open spec fn chunk_at(offset: int, chunk_size: u16) -> int {
    let chunk = offset / one_or_more(chunk_size);
    if i16::MIN <= chunk <= i16::MAX {
        chunk
    } else {
        0
    }
}

fn chunk_number(offset: i32, chunk_size: u16) -> (chunk: i16)
    ensures
        chunk == chunk_at(offset as int, chunk_size),
{
    let size: i64 = if chunk_size == 0 {
        1
    } else {
        chunk_size as i64
    };
    let chunk: i64 = floor_quotient(offset as i64, size);
    if chunk < -32768 || chunk > 32767 {
        0
    } else {
        chunk as i16
    }
}

/// The chunk of a cell by its number; zero where a line or column has no
/// number.
pub fn chunk_coords_for_cell_id(cell_id: u32, map_width: u16, chunk_size: u16) -> (chunk: (
    i16,
    i16,
))
    ensures
        chunk.0 == chunk_at(line_number(cell_id as int % one_or_more(map_width)), chunk_size),
        chunk.1 == chunk_at(line_number(cell_id as int / one_or_more(map_width)), chunk_size),
{
    let width: u32 = if map_width == 0 {
        1
    } else {
        map_width as u32
    };
    let column: i32 = numbered_line(cell_id % width);
    let row: i32 = numbered_line(cell_id / width);
    (chunk_number(column, chunk_size), chunk_number(row, chunk_size))
}

/// A line or column number; zero where it is too large to be one.
pub open spec fn line_number(n: int) -> int {
    if n <= i32::MAX {
        n
    } else {
        0
    }
}

fn numbered_line(n: u32) -> (line: i32)
    ensures
        line == line_number(n as int),
{
    if n <= 2147483647 {
        n as i32
    } else {
        0
    }
}

/// The chunk of a coordinate on a map with a given origin.
pub fn chunk_coords_for_axial(
    coordinate: Axial,
    map_origin_q: i32,
    map_origin_r: i32,
    chunk_size: u16,
) -> (chunk: (i16, i16))
    requires
        i32::MIN <= coordinate.q - map_origin_q <= i32::MAX,
        i32::MIN <= coordinate.r - map_origin_r <= i32::MAX,
    ensures
        chunk.0 == chunk_at(coordinate.q - map_origin_q, chunk_size),
        chunk.1 == chunk_at(coordinate.r - map_origin_r, chunk_size),
{
    (
        chunk_number(coordinate.q - map_origin_q, chunk_size),
        chunk_number(coordinate.r - map_origin_r, chunk_size),
    )
}

/// The interest around what a camera looks at: the coordinate itself where the
/// map holds it, else the nearest one that it holds.
pub fn camera_interest(
    focus: Axial,
    is_on_map: bool,
    nearest: Option<Axial>,
    map_origin_q: i32,
    map_origin_r: i32,
    chunk_size: u16,
) -> (interest: SpatialInterest)
    requires
        i32::MIN <= looked_at(focus, is_on_map, nearest).q - map_origin_q <= i32::MAX,
        i32::MIN <= looked_at(focus, is_on_map, nearest).r - map_origin_r <= i32::MAX,
    ensures
        interest.focus_chunk_q == chunk_at(
            looked_at(focus, is_on_map, nearest).q - map_origin_q,
            chunk_size,
        ),
        interest.focus_chunk_r == chunk_at(
            looked_at(focus, is_on_map, nearest).r - map_origin_r,
            chunk_size,
        ),
        interest.radius == HIGH_SCALE_INTEREST_CHUNK_RADIUS,
{
    let coordinate = if is_on_map {
        focus
    } else {
        match nearest {
            Some(known) => known,
            None => focus,
        }
    };
    let (chunk_q, chunk_r) = chunk_coords_for_axial(
        coordinate,
        map_origin_q,
        map_origin_r,
        chunk_size,
    );
    SpatialInterest {
        focus_chunk_q: chunk_q,
        focus_chunk_r: chunk_r,
        radius: HIGH_SCALE_INTEREST_CHUNK_RADIUS,
    }
}

/// The coordinate that stands for what a camera looks at.
pub open spec fn looked_at(focus: Axial, is_on_map: bool, nearest: Option<Axial>) -> Axial {
    if is_on_map {
        focus
    } else {
        match nearest {
            Some(known) => known,
            None => focus,
        }
    }
}

/// The interest of a player who has just taken a seat: around the spawn cell.
pub fn spawn_interest(spawn_cell: u32, layout: Option<(u16, u16)>) -> (interest: SpatialInterest)
    ensures
        interest == spawn_focus(spawn_cell, layout),
{
    let (chunk_q, chunk_r): (i16, i16) = match layout {
        Some((map_width, chunk_size)) => chunk_coords_for_cell_id(
            spawn_cell,
            map_width,
            chunk_size,
        ),
        None => (0, 0),
    };
    SpatialInterest {
        focus_chunk_q: chunk_q,
        focus_chunk_r: chunk_r,
        radius: HIGH_SCALE_INTEREST_CHUNK_RADIUS,
    }
}

/// The interest around a spawn cell on a map of known width and chunk size;
/// around the origin where these are unknown.
pub open spec fn spawn_focus(spawn_cell: u32, layout: Option<(u16, u16)>) -> SpatialInterest {
    match layout {
        Some((map_width, chunk_size)) => SpatialInterest {
            focus_chunk_q: chunk_at(
                line_number(spawn_cell as int % one_or_more(map_width)),
                chunk_size,
            ) as i16,
            focus_chunk_r: chunk_at(
                line_number(spawn_cell as int / one_or_more(map_width)),
                chunk_size,
            ) as i16,
            radius: HIGH_SCALE_INTEREST_CHUNK_RADIUS,
        },
        None => SpatialInterest {
            focus_chunk_q: 0,
            focus_chunk_r: 0,
            radius: HIGH_SCALE_INTEREST_CHUNK_RADIUS,
        },
    }
}

/// Which subscriptions have been applied.
#[derive(Clone, Copy, Debug, Eq, PartialEq, Structural)]
pub struct SubscriptionLifecycle {
    pub bootstrap_ready: bool,
    pub tactical_ready: bool,
}

impl SubscriptionLifecycle {
    /// Commands wait for both subscriptions.
    pub open spec fn is_ready(self) -> bool {
        self.bootstrap_ready && self.tactical_ready
    }

    pub fn commands_ready(self) -> (ready: bool)
        ensures
            ready == self.is_ready(),
    {
        self.bootstrap_ready && self.tactical_ready
    }

    pub fn reset() -> (lifecycle: SubscriptionLifecycle)
        ensures
            !lifecycle.bootstrap_ready,
            !lifecycle.tactical_ready,
    {
        SubscriptionLifecycle { bootstrap_ready: false, tactical_ready: false }
    }

    pub fn on_bootstrap_applied(self) -> (next: SubscriptionLifecycle)
        ensures
            next.bootstrap_ready,
            next.tactical_ready == self.tactical_ready,
    {
        SubscriptionLifecycle { bootstrap_ready: true, tactical_ready: self.tactical_ready }
    }

    pub fn on_tactical_start(self) -> (next: SubscriptionLifecycle)
        ensures
            next.bootstrap_ready == self.bootstrap_ready,
            !next.tactical_ready,
    {
        SubscriptionLifecycle { bootstrap_ready: self.bootstrap_ready, tactical_ready: false }
    }

    pub fn on_tactical_applied(self) -> (next: SubscriptionLifecycle)
        ensures
            next.bootstrap_ready == self.bootstrap_ready,
            next.tactical_ready,
    {
        SubscriptionLifecycle { bootstrap_ready: self.bootstrap_ready, tactical_ready: true }
    }
}

impl Default for SubscriptionLifecycle {
    fn default() -> (lifecycle: SubscriptionLifecycle)
        ensures
            !lifecycle.bootstrap_ready,
            !lifecycle.tactical_ready,
    {
        SubscriptionLifecycle::reset()
    }
}

} // verus!
