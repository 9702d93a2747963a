//! Axial hex coordinates, directions, undirected edges and chunk addresses.
use vstd::prelude::*;
use vstd::std_specs::ops::{AddSpecImpl, SubSpecImpl};
use vstd::string::*;
use core::ops::{Add, Sub};
use crate::text::{append_axial, axial_text, text};

verus! {

/// An axial hex coordinate. The implicit cube coordinate is `y = -q - r`.
#[derive(Clone, Copy, Debug, Eq, Hash, Ord, PartialEq, PartialOrd, Structural)]
pub struct Axial {
    pub q: i32,
    pub r: i32,
}

/// The absolute value of an integer.
pub open spec fn abs(x: int) -> int {
    if x < 0 {
        -x
    } else {
        x
    }
}

/// The order of coordinates: by `q`, then by `r`.
pub open spec fn axial_lt(a: Axial, b: Axial) -> bool {
    a.q < b.q || (a.q == b.q && a.r < b.r)
}

/// Hex distance: half of the taxicab distance in cube coordinates.
pub open spec fn hex_distance(a: Axial, b: Axial) -> int {
    let dx = a.q - b.q;
    let dz = a.r - b.r;
    (abs(dx) + abs(-dx - dz) + abs(dz)) / 2
}

/// Whether two hexes share an edge.
pub open spec fn adjacent(a: Axial, b: Axial) -> bool {
    hex_distance(a, b) == 1
}

/// The coordinate step of a direction index, clockwise from positive `q`.
pub open spec fn step_of(index: int) -> (int, int) {
    if index == 0 {
        (1, 0)
    } else if index == 1 {
        (1, -1)
    } else if index == 2 {
        (0, -1)
    } else if index == 3 {
        (-1, 0)
    } else if index == 4 {
        (-1, 1)
    } else {
        (0, 1)
    }
}

impl Axial {
    /// The neighbour of this coordinate in the direction with the given index.
    pub open spec fn step(self, index: int) -> Axial {
        Axial { q: (self.q + step_of(index).0) as i32, r: (self.r + step_of(index).1) as i32 }
    }

    /// Whether all six neighbours are representable.
    pub open spec fn interior(self) -> bool {
        &&& i32::MIN < self.q < i32::MAX
        &&& i32::MIN < self.r < i32::MAX
    }
}

/// The magnitude of a signed number.
pub fn magnitude(x: i64) -> (m: u64)
    ensures
        m == abs(x as int),
{
    if x < 0 {
        if x == i64::MIN {
            0x8000_0000_0000_0000
        } else {
            (-x) as u64
        }
    } else {
        x as u64
    }
}

/// The quotient of `a` by `b`, rounded down.
fn floor_quotient(a: i32, b: i32) -> (q: i32)
    requires
        b > 0,
    ensures
        q == a as int / b as int,
{
    if a >= 0 {
        a / b
    } else {
        let k: i32 = (-1 - a) / b;
        let q: i32 = -1 - k;
        proof {
            let n = -1 - a as int;
            let d = b as int;
            vstd::arithmetic::div_mod::lemma_fundamental_div_mod(n, d);
            assert(d * (-1 - n / d) == -d - d * (n / d)) by (nonlinear_arith);
            vstd::arithmetic::div_mod::lemma_fundamental_div_mod_converse(
                a as int,
                d,
                -1 - n / d,
                d - 1 - n % d,
            );
        }
        q
    }
}

impl Axial {
    /// The coordinate steps in clockwise direction order, beginning at positive q.
    pub fn directions() -> (steps: [Axial; 6])
        ensures
            forall|i: int|
                0 <= i < 6 ==> (#[trigger] steps@[i]).q == step_of(i).0 && steps@[i].r == step_of(
                    i,
                ).1,
    {
        [
            Axial { q: 1, r: 0 },
            Axial { q: 1, r: -1 },
            Axial { q: 0, r: -1 },
            Axial { q: -1, r: 0 },
            Axial { q: -1, r: 1 },
            Axial { q: 0, r: 1 },
        ]
    }

    pub fn new(q: i32, r: i32) -> (c: Axial)
        ensures
            c == (Axial { q, r }),
    {
        Axial { q, r }
    }

    pub fn cube(self) -> (c: Cube)
        ensures
            c.x == self.q,
            c.y == -self.q - self.r,
            c.z == self.r,
            c.zero_sum(),
    {
        Cube { x: self.q as i64, y: -(self.q as i64) - (self.r as i64), z: self.r as i64 }
    }

    /// The adjacent coordinate in one direction.
    pub fn neighbor(self, direction: HexDirection) -> (n: Axial)
        requires
            i32::MIN <= self.q + step_of(direction.ordinal()).0 <= i32::MAX,
            i32::MIN <= self.r + step_of(direction.ordinal()).1 <= i32::MAX,
        ensures
            n == self.step(direction.ordinal()),
            n.q == self.q + step_of(direction.ordinal()).0,
            n.r == self.r + step_of(direction.ordinal()).1,
            adjacent(self, n),
    {
        let steps = Axial::directions();
        self + steps[direction.index()]
    }

    /// The six adjacent coordinates in direction order.
    pub fn neighbors(self) -> (ns: [Axial; 6])
        requires
            self.interior(),
        ensures
            ns@ == Seq::new(6, |i: int| self.step(i)),
    {
        let steps = Axial::directions();
        let ns = [
            self + steps[0],
            self + steps[1],
            self + steps[2],
            self + steps[3],
            self + steps[4],
            self + steps[5],
        ];
        assert(ns@ =~= Seq::new(6, |i: int| self.step(i)));
        ns
    }

    /// Hex distance, calculated through cube coordinates without i32 overflow.
    pub fn distance(self, other: Axial) -> (d: u64)
        ensures
            d == hex_distance(self, other),
    {
        let delta = self.cube() - other.cube();
        (magnitude(delta.x) + magnitude(delta.y) + magnitude(delta.z)) / 2
    }

    /// Resolves this coordinate into an axial parallelogram chunk.
    ///
    /// Euclidean division makes local coordinates non-negative for negative map
    /// coordinates as well.
    pub fn chunk_address(self, chunk_size: u32) -> (address: Option<ChunkAddress>)
        ensures
            address is Some <==> 0 < chunk_size <= i32::MAX,
            address matches Some(a) ==> {
                &&& a.chunk.q == self.q as int / chunk_size as int
                &&& a.chunk.r == self.r as int / chunk_size as int
                &&& a.local_q == self.q as int % chunk_size as int
                &&& a.local_r == self.r as int % chunk_size as int
            },
    {
        if chunk_size == 0 || chunk_size > i32::MAX as u32 {
            return None;
        }
        let size: i32 = chunk_size as i32;
        let q: i32 = floor_quotient(self.q, size);
        let r: i32 = floor_quotient(self.r, size);
        proof {
            let d = size as int;
            vstd::arithmetic::div_mod::lemma_fundamental_div_mod(self.q as int, d);
            vstd::arithmetic::div_mod::lemma_fundamental_div_mod(self.r as int, d);
            assert(d * (self.q as int / d) == (self.q as int / d) * d) by (nonlinear_arith);
            assert(d * (self.r as int / d) == (self.r as int / d) * d) by (nonlinear_arith);
        }
        let local_q: i64 = self.q as i64 - q as i64 * size as i64;
        let local_r: i64 = self.r as i64 - r as i64 * size as i64;
        Some(
            ChunkAddress {
                chunk: ChunkCoord { q, r },
                local_q: local_q as u32,
                local_r: local_r as u32,
            },
        )
    }
}

impl Default for Axial {
    fn default() -> (c: Axial)
        ensures
            c == (Axial { q: 0, r: 0 }),
    {
        Axial { q: 0, r: 0 }
    }
}

impl Add for Axial {
    type Output = Axial;

    fn add(self, rhs: Axial) -> (sum: Axial) {
        Axial { q: self.q + rhs.q, r: self.r + rhs.r }
    }
}

impl AddSpecImpl for Axial {
    open spec fn obeys_add_spec() -> bool {
        true
    }

    open spec fn add_req(self, rhs: Axial) -> bool {
        &&& i32::MIN <= self.q + rhs.q <= i32::MAX
        &&& i32::MIN <= self.r + rhs.r <= i32::MAX
    }

    open spec fn add_spec(self, rhs: Axial) -> Axial {
        Axial { q: (self.q + rhs.q) as i32, r: (self.r + rhs.r) as i32 }
    }
}

impl Sub for Axial {
    type Output = Axial;

    fn sub(self, rhs: Axial) -> (difference: Axial) {
        Axial { q: self.q - rhs.q, r: self.r - rhs.r }
    }
}

impl SubSpecImpl for Axial {
    open spec fn obeys_sub_spec() -> bool {
        true
    }

    open spec fn sub_req(self, rhs: Axial) -> bool {
        &&& i32::MIN <= self.q - rhs.q <= i32::MAX
        &&& i32::MIN <= self.r - rhs.r <= i32::MAX
    }

    open spec fn sub_spec(self, rhs: Axial) -> Axial {
        Axial { q: (self.q - rhs.q) as i32, r: (self.r - rhs.r) as i32 }
    }
}

/// A cube-coordinate view used for geometry calculations.
#[derive(Clone, Copy, Debug, Eq, Hash, Ord, PartialEq, PartialOrd, Structural)]
pub struct Cube {
    pub x: i64,
    pub y: i64,
    pub z: i64,
}

impl Cube {
    /// Whether the three components cancel out.
    pub open spec fn zero_sum(self) -> bool {
        self.x + self.y + self.z == 0
    }

    /// Whether the components sum to zero.
    pub fn is_valid(self) -> (valid: bool)
        requires
            i64::MIN <= self.x + self.y <= i64::MAX,
            i64::MIN <= self.x + self.y + self.z <= i64::MAX,
        ensures
            valid == self.zero_sum(),
    {
        self.x + self.y + self.z == 0
    }
}

impl Default for Cube {
    fn default() -> (c: Cube)
        ensures
            c == (Cube { x: 0, y: 0, z: 0 }),
    {
        Cube { x: 0, y: 0, z: 0 }
    }
}

impl Sub for Cube {
    type Output = Cube;

    fn sub(self, rhs: Cube) -> (difference: Cube) {
        Cube { x: self.x - rhs.x, y: self.y - rhs.y, z: self.z - rhs.z }
    }
}

impl SubSpecImpl for Cube {
    open spec fn obeys_sub_spec() -> bool {
        true
    }

    open spec fn sub_req(self, rhs: Cube) -> bool {
        &&& i64::MIN <= self.x - rhs.x <= i64::MAX
        &&& i64::MIN <= self.y - rhs.y <= i64::MAX
        &&& i64::MIN <= self.z - rhs.z <= i64::MAX
    }

    open spec fn sub_spec(self, rhs: Cube) -> Cube {
        Cube {
            x: (self.x - rhs.x) as i64,
            y: (self.y - rhs.y) as i64,
            z: (self.z - rhs.z) as i64,
        }
    }
}

/// The six edge directions, clockwise from positive `q`.
#[derive(Clone, Copy, Debug, Eq, Hash, Ord, PartialEq, PartialOrd, Structural)]
pub enum HexDirection {
    East,
    NorthEast,
    NorthWest,
    West,
    SouthWest,
    SouthEast,
}

impl HexDirection {
    pub const ALL: [HexDirection; 6] = [
        HexDirection::East,
        HexDirection::NorthEast,
        HexDirection::NorthWest,
        HexDirection::West,
        HexDirection::SouthWest,
        HexDirection::SouthEast,
    ];

    /// The position of the direction in clockwise order.
    pub open spec fn ordinal(self) -> int {
        match self {
            HexDirection::East => 0,
            HexDirection::NorthEast => 1,
            HexDirection::NorthWest => 2,
            HexDirection::West => 3,
            HexDirection::SouthWest => 4,
            HexDirection::SouthEast => 5,
        }
    }

    pub fn index(self) -> (i: usize)
        ensures
            i == self.ordinal(),
            i < 6,
    {
        match self {
            HexDirection::East => 0,
            HexDirection::NorthEast => 1,
            HexDirection::NorthWest => 2,
            HexDirection::West => 3,
            HexDirection::SouthWest => 4,
            HexDirection::SouthEast => 5,
        }
    }

    pub fn opposite(self) -> (d: HexDirection)
        ensures
            d.ordinal() == (self.ordinal() + 3) % 6,
    {
        HexDirection::ALL[(self.index() + 3) % 6]
    }
}

/// A canonical undirected edge between adjacent hexes.
#[derive(Clone, Copy, Debug, Eq, Hash, Ord, PartialEq, PartialOrd, Structural)]
pub struct HexEdge {
    pub a: Axial,
    pub b: Axial,
}

/// The canonical edge of two coordinates: the smaller endpoint comes first.
pub open spec fn edge_of(first: Axial, second: Axial) -> HexEdge {
    if axial_lt(second, first) {
        HexEdge { a: second, b: first }
    } else {
        HexEdge { a: first, b: second }
    }
}

impl HexEdge {
    /// Whether the endpoints are adjacent and in canonical order.
    pub open spec fn valid(self) -> bool {
        adjacent(self.a, self.b) && axial_lt(self.a, self.b)
    }

    pub fn new(first: Axial, second: Axial) -> (edge: Option<HexEdge>)
        ensures
            edge is Some <==> adjacent(first, second),
            edge matches Some(e) ==> e == edge_of(first, second) && e.valid(),
    {
        if first.distance(second) != 1 {
            return None;
        }
        if second.q < first.q || (second.q == first.q && second.r < first.r) {
            Some(HexEdge { a: second, b: first })
        } else {
            Some(HexEdge { a: first, b: second })
        }
    }

    /// An edge as it is written down: its endpoints are adjacent and in
    /// canonical order.
    pub fn try_from(a: Axial, b: Axial) -> (edge: Result<HexEdge, String>)
        ensures
            match edge {
                Ok(e) => e == (HexEdge { a, b }) && e.valid(),
                Err(reason) => if adjacent(a, b) {
                    !axial_lt(a, b) && reason@
                        == "hex edge is not in canonical a <= b order: "@ + axial_text(a) + " and "@
                        + axial_text(b)
                } else {
                    reason@ == "hex edge endpoints are not adjacent: "@ + axial_text(a) + " and "@
                        + axial_text(b)
                },
            },
    {
        match HexEdge::new(a, b) {
            None => {
                let mut reason = text("hex edge endpoints are not adjacent: ");
                append_axial(&mut reason, a);
                reason.append(" and ");
                append_axial(&mut reason, b);
                Err(reason)
            },
            Some(edge) => {
                if edge.a != a {
                    let mut reason = text("hex edge is not in canonical a <= b order: ");
                    append_axial(&mut reason, a);
                    reason.append(" and ");
                    append_axial(&mut reason, b);
                    return Err(reason);
                }
                Ok(edge)
            },
        }
    }

    pub fn contains(self, coordinate: Axial) -> (found: bool)
        ensures
            found == (self.a == coordinate || self.b == coordinate),
    {
        self.a == coordinate || self.b == coordinate
    }
}

#[derive(Clone, Copy, Debug, Eq, Hash, Ord, PartialEq, PartialOrd, Structural)]
pub struct ChunkCoord {
    pub q: i32,
    pub r: i32,
}

#[derive(Clone, Copy, Debug, Eq, Hash, Ord, PartialEq, PartialOrd, Structural)]
pub struct ChunkAddress {
    pub chunk: ChunkCoord,
    pub local_q: u32,
    pub local_r: u32,
}

impl ChunkAddress {
    /// The `q` component that this address stands for.
    pub open spec fn q_at(self, chunk_size: u32) -> int {
        self.chunk.q * chunk_size + self.local_q
    }

    /// The `r` component that this address stands for.
    pub open spec fn r_at(self, chunk_size: u32) -> int {
        self.chunk.r * chunk_size + self.local_r
    }

    /// The coordinate of this address, where the local part lies in the chunk
    /// and the coordinate is representable.
    pub fn to_axial(self, chunk_size: u32) -> (coordinate: Option<Axial>)
        ensures
            coordinate is Some <==> {
                &&& self.local_q < chunk_size
                &&& self.local_r < chunk_size
                &&& i32::MIN <= self.q_at(chunk_size) <= i32::MAX
                &&& i32::MIN <= self.r_at(chunk_size) <= i32::MAX
            },
            coordinate matches Some(c) ==> c.q == self.q_at(chunk_size) && c.r == self.r_at(
                chunk_size,
            ),
    {
        if chunk_size == 0 || self.local_q >= chunk_size || self.local_r >= chunk_size {
            return None;
        }
        let size: i64 = chunk_size as i64;
        proof {
            assert(-0x8000_0000 * 0x1_0000_0000 <= self.chunk.q * chunk_size <= 0x8000_0000
                * 0x1_0000_0000) by (nonlinear_arith)
                requires
                    -0x8000_0000 <= self.chunk.q < 0x8000_0000,
                    0 <= chunk_size < 0x1_0000_0000,
            ;
            assert(-0x8000_0000 * 0x1_0000_0000 <= self.chunk.r * chunk_size <= 0x8000_0000
                * 0x1_0000_0000) by (nonlinear_arith)
                requires
                    -0x8000_0000 <= self.chunk.r < 0x8000_0000,
                    0 <= chunk_size < 0x1_0000_0000,
            ;
        }
        let q: i64 = match (self.chunk.q as i64).checked_mul(size) {
            Some(base) => match base.checked_add(self.local_q as i64) {
                Some(q) => q,
                None => {
                    return None;
                },
            },
            None => {
                return None;
            },
        };
        let r: i64 = match (self.chunk.r as i64).checked_mul(size) {
            Some(base) => match base.checked_add(self.local_r as i64) {
                Some(r) => r,
                None => {
                    return None;
                },
            },
            None => {
                return None;
            },
        };
        if q < i32::MIN as i64 || q > i32::MAX as i64 || r < i32::MIN as i64 || r > i32::MAX as i64 {
            return None;
        }
        Some(Axial { q: q as i32, r: r as i32 })
    }
}

/// Cube coordinates keep the zero-sum invariant under subtraction.
pub proof fn law_cube_difference_is_zero_sum(a: Cube, b: Cube)
    requires
        a.zero_sum(),
        b.zero_sum(),
        vstd::std_specs::ops::SubSpec::sub_req(a, b),
    ensures
        vstd::std_specs::ops::SubSpec::sub_spec(a, b).zero_sum(),
{
}

/// Every neighbour is one step away, and the opposite direction leads back.
pub proof fn law_neighbors_are_symmetric(origin: Axial, direction: HexDirection, back: HexDirection)
    requires
        origin.interior(),
        back.ordinal() == (direction.ordinal() + 3) % 6,
    ensures
        hex_distance(origin, origin.step(direction.ordinal())) == 1,
        origin.step(direction.ordinal()).step(back.ordinal()) == origin,
{
}

/// The adjacent coordinates of an interior hex are exactly its six neighbours.
pub proof fn law_adjacent_iff_neighbor(a: Axial, b: Axial)
    requires
        a.interior(),
    ensures
        adjacent(a, b) <==> exists|i: int| 0 <= i < 6 && #[trigger] a.step(i) == b,
{
    assert(a.step(0).q == a.q + 1);
    if adjacent(a, b) {
        let dq = b.q - a.q;
        let dr = b.r - a.r;
        assert(a.step(0) == b || a.step(1) == b || a.step(2) == b || a.step(3) == b || a.step(4)
            == b || a.step(5) == b);
    }
}

/// Distance is symmetric, vanishes exactly on equal hexes, and obeys the
/// triangle inequality.
pub proof fn law_distance_is_a_metric(a: Axial, b: Axial, c: Axial)
    ensures
        hex_distance(a, b) == hex_distance(b, a),
        hex_distance(a, b) == 0 <==> a == b,
        hex_distance(a, c) <= hex_distance(a, b) + hex_distance(b, c),
{
}

/// An address names the coordinate that it was made from.
pub proof fn law_chunk_address_round_trips(c: Axial, chunk_size: u32, address: ChunkAddress)
    requires
        0 < chunk_size <= i32::MAX,
        address.chunk.q == c.q as int / chunk_size as int,
        address.chunk.r == c.r as int / chunk_size as int,
        address.local_q == c.q as int % chunk_size as int,
        address.local_r == c.r as int % chunk_size as int,
    ensures
        address.local_q < chunk_size,
        address.local_r < chunk_size,
        address.q_at(chunk_size) == c.q,
        address.r_at(chunk_size) == c.r,
{
    let d = chunk_size as int;
    vstd::arithmetic::div_mod::lemma_fundamental_div_mod(c.q as int, d);
    vstd::arithmetic::div_mod::lemma_fundamental_div_mod(c.r as int, d);
    assert(d * (c.q as int / d) == (c.q as int / d) * d) by (nonlinear_arith);
    assert(d * (c.r as int / d) == (c.r as int / d) * d) by (nonlinear_arith);
}

/// The canonical edge does not depend on the order of its endpoints.
pub proof fn law_edges_are_undirected(a: Axial, b: Axial)
    ensures
        edge_of(a, b) == edge_of(b, a),
{
}

} // verus!
