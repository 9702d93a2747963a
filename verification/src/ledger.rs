//! Amounts and counts under an order and a cell.
use vstd::prelude::*;
use crate::axials::{AxialMap, AxialSet};
use crate::contest::capped;
use crate::coord::Axial;
use crate::table::{KeySet, Table};

verus! {

/// What is filed under a key; zero for nothing.
pub open spec fn amount_at<K>(entries: Map<K, u64>, key: K) -> u64 {
    if entries.contains_key(key) {
        entries[key]
    } else {
        0
    }
}

/// An amount that is raised, or lowered. What is lowered to zero is taken out.
pub open spec fn shifted<K>(entries: Map<K, u64>, key: K, amount: u64, adding: bool) -> Map<K, u64> {
    if adding {
        entries.insert(key, capped(amount_at(entries, key) + amount))
    } else if !entries.contains_key(key) {
        entries
    } else if entries[key] <= amount {
        entries.remove(key)
    } else {
        entries.insert(key, (entries[key] - amount) as u64)
    }
}

/// The entries under a group.
pub open spec fn group_at<K, V>(groups: Map<u128, Map<K, V>>, group: u128) -> Map<K, V> {
    if groups.contains_key(group) {
        groups[group]
    } else {
        Map::empty()
    }
}

/// With other entries under a group. A group without entries is taken out.
pub open spec fn regrouped<K, V>(
    groups: Map<u128, Map<K, V>>,
    group: u128,
    entries: Map<K, V>,
) -> Map<u128, Map<K, V>> {
    if entries.dom() =~= Set::<K>::empty() {
        groups.remove(group)
    } else {
        groups.insert(group, entries)
    }
}

/// An amount under a group that is raised, or lowered.
pub open spec fn shifted_in<K>(
    groups: Map<u128, Map<K, u64>>,
    group: u128,
    key: K,
    amount: u64,
    adding: bool,
) -> Map<u128, Map<K, u64>> {
    if !adding && !groups.contains_key(group) {
        groups
    } else {
        regrouped(groups, group, shifted(group_at(groups, group), key, amount, adding))
    }
}

pub open spec fn count_at<K>(entries: Map<K, u32>, key: K) -> u32 {
    if entries.contains_key(key) {
        entries[key]
    } else {
        0
    }
}

/// One more; the largest count stays.
pub open spec fn next_count(count: u32) -> u32 {
    if count == u32::MAX {
        u32::MAX
    } else {
        (count + 1) as u32
    }
}

fn count_up(count: u32) -> (next: u32)
    ensures
        next == next_count(count),
{
    if count == u32::MAX {
        u32::MAX
    } else {
        count + 1
    }
}

/// One more under a group, or one less. What is counted down to zero is taken
/// out.
pub open spec fn counted<K>(
    groups: Map<u128, Map<K, u32>>,
    group: u128,
    key: K,
    adding: bool,
) -> Map<u128, Map<K, u32>> {
    let entries = group_at(groups, group);
    if adding {
        groups.insert(group, entries.insert(key, next_count(count_at(entries, key))))
    } else if !entries.contains_key(key) {
        groups
    } else if entries[key] <= 1 {
        regrouped(groups, group, entries.remove(key))
    } else {
        groups.insert(group, entries.insert(key, (entries[key] - 1) as u32))
    }
}

/// The cells under a group.
pub open spec fn set_at<K>(sets: Map<u128, Set<K>>, group: u128) -> Set<K> {
    if sets.contains_key(group) {
        sets[group]
    } else {
        Set::empty()
    }
}

/// The cells that are noted beside their counts: a cell that is counted once more
/// is noted, one that is counted down to zero is not.
pub open spec fn noted<K>(
    sets: Map<u128, Set<K>>,
    counts: Map<u128, Map<K, u32>>,
    group: u128,
    key: K,
    adding: bool,
) -> Map<u128, Set<K>> {
    let entries = group_at(counts, group);
    if adding {
        sets.insert(group, set_at(sets, group).insert(key))
    } else if !entries.contains_key(key) || entries[key] > 1 || !sets.contains_key(group) {
        sets
    } else if sets[group].remove(key) =~= Set::<K>::empty() {
        sets.remove(group)
    } else {
        sets.insert(group, sets[group].remove(key))
    }
}

/// Raises or lowers an amount.
pub fn adjust_strength(strengths: &mut AxialMap<u64>, coordinate: Axial, amount: u64, adding: bool)
    ensures
        final(strengths)@ == shifted(old(strengths)@, coordinate, amount, adding),
{
    if adding {
        let before: u64 = match strengths.get(coordinate) {
            Some(n) => *n,
            None => 0,
        };
        let after: u64 = if before > u64::MAX - amount {
            u64::MAX
        } else {
            before + amount
        };
        strengths.insert(coordinate, after);
        return;
    }
    if let Some(n) = strengths.get(coordinate) {
        let before: u64 = *n;
        if before <= amount {
            strengths.remove(coordinate);
        } else {
            strengths.insert(coordinate, before - amount);
        }
    }
}

/// Amounts under orders and cells.
#[derive(Debug)]
pub struct Strengths {
    orders: Table<AxialMap<u64>>,
}

impl View for Strengths {
    type V = Map<u128, Map<Axial, u64>>;

    closed spec fn view(&self) -> Map<u128, Map<Axial, u64>> {
        self.orders@.map_values(|m: AxialMap<u64>| m@)
    }
}

impl Strengths {
    pub fn new() -> (strengths: Strengths)
        ensures
            strengths@ == Map::<u128, Map<Axial, u64>>::empty(),
    {
        let strengths = Strengths { orders: Table::new() };
        assert(strengths@ =~= Map::<u128, Map<Axial, u64>>::empty());
        strengths
    }

    pub fn adjust(&mut self, order_id: u64, coordinate: Axial, amount: u64, adding: bool)
        ensures
            final(self)@ == shifted_in(
                old(self)@,
                order_id as u128,
                coordinate,
                amount,
                adding,
            ),
    {
        let ghost before = self@;
        let key: u128 = order_id as u128;
        let mut cells: AxialMap<u64> = match self.orders.remove(key) {
            Some(cells) => cells,
            None => {
                if !adding {
                    assert(self@ =~= before);
                    return;
                }
                AxialMap::new()
            },
        };
        assert(cells@ =~= group_at(before, key));
        adjust_strength(&mut cells, coordinate, amount, adding);
        let empty: bool = cells.is_empty();
        if !empty {
            self.orders.insert(key, cells);
        }
        assert(self@ =~= shifted_in(before, key, coordinate, amount, adding));
    }

    /// What is filed under an order and a cell.
    pub fn get(&self, order_id: u64, coordinate: Axial) -> (amount: Option<u64>)
        ensures
            amount == (if group_at(self@, order_id as u128).contains_key(coordinate) {
                Some(self@[order_id as u128][coordinate])
            } else {
                None
            }),
    {
        match self.orders.get(order_id as u128) {
            Some(cells) => match cells.get(coordinate) {
                Some(n) => Some(*n),
                None => None,
            },
            None => None,
        }
    }

    /// Whether the same is filed.
    pub fn is_same(&self, other: &Strengths) -> (same: bool)
        ensures
            same == (self@ == other@),
    {
        let keys = self.orders.keys();
        let others = other.orders.keys();
        assert(self@.dom() =~= self.orders@.dom());
        assert(other@.dom() =~= other.orders@.dom());
        if !same_numbers(&keys, &others) {
            return false;
        }
        let mut i: usize = 0;
        while i < keys.len()
            invariant
                i <= keys@.len(),
                keys@.to_set() == self.orders@.dom(),
                keys@.to_set() == other.orders@.dom(),
                self@.dom() == self.orders@.dom(),
                other@.dom() == other.orders@.dom(),
                forall|k: int| 0 <= k < i ==> self@[#[trigger] keys@[k]] == other@[keys@[k]],
            decreases keys.len() - i,
        {
            let key = keys[i];
            assert(keys@.to_set().contains(key));
            let same = match (self.orders.get(key), other.orders.get(key)) {
                (Some(a), Some(b)) => same_amounts(a, b),
                _ => vstd::pervasive::unreached(),
            };
            assert(self@[key] == self.orders@[key]@);
            assert(other@[key] == other.orders@[key]@);
            if !same {
                assert(self@[key] != other@[key]);
                return false;
            }
            i += 1;
        }
        proof {
            assert forall|k: u128| self@.contains_key(k) implies self@[k] == other@[k] by {
                assert(keys@.to_set().contains(k));
                let n = choose|n: int| 0 <= n < keys@.len() && keys@[n] == k;
                assert(self@[keys@[n]] == other@[keys@[n]]);
            }
            assert(self@ =~= other@);
        }
        true
    }

    /// The orders with something filed under them.
    pub fn order_ids(&self) -> (ids: KeySet)
        ensures
            ids@ == self@.dom(),
    {
        let mut ids = KeySet::new();
        ids.insert_all(&self.orders.keys());
        assert(ids@ =~= self@.dom());
        ids
    }
}

/// Counts under orders and cells.
#[derive(Debug)]
pub struct Claims {
    orders: Table<AxialMap<u32>>,
}

impl View for Claims {
    type V = Map<u128, Map<Axial, u32>>;

    closed spec fn view(&self) -> Map<u128, Map<Axial, u32>> {
        self.orders@.map_values(|m: AxialMap<u32>| m@)
    }
}

impl Claims {
    pub fn new() -> (claims: Claims)
        ensures
            claims@ == Map::<u128, Map<Axial, u32>>::empty(),
    {
        let claims = Claims { orders: Table::new() };
        assert(claims@ =~= Map::<u128, Map<Axial, u32>>::empty());
        claims
    }

    pub fn adjust(&mut self, order_id: u64, coordinate: Axial, adding: bool)
        ensures
            final(self)@ == counted(old(self)@, order_id as u128, coordinate, adding),
    {
        let ghost before = self@;
        let key: u128 = order_id as u128;
        let mut cells: AxialMap<u32> = match self.orders.remove(key) {
            Some(cells) => cells,
            None => {
                if !adding {
                    assert(self@ =~= before);
                    return;
                }
                AxialMap::new()
            },
        };
        assert(cells@ =~= group_at(before, key));
        let count: u32 = match cells.get(coordinate) {
            Some(n) => *n,
            None => 0,
        };
        if adding {
            cells.insert(coordinate, count_up(count));
        } else if cells.contains(coordinate) {
            if count <= 1 {
                cells.remove(coordinate);
                if cells.is_empty() {
                    assert(self@ =~= counted(before, key, coordinate, adding));
                    return;
                }
            } else {
                cells.insert(coordinate, count - 1);
            }
        }
        self.orders.insert(key, cells);
        assert(self@ =~= counted(before, key, coordinate, adding));
    }

    /// How often a cell is counted under an order. What is filed with a count of
    /// zero says one, as it is taken out with the next.
    fn count(&self, order_id: u64, coordinate: Axial) -> (count: u32)
        ensures
            count == (if group_at(self@, order_id as u128).contains_key(coordinate) {
                if self@[order_id as u128][coordinate] <= 1 {
                    1
                } else {
                    self@[order_id as u128][coordinate]
                }
            } else {
                0
            }),
    {
        match self.orders.get(order_id as u128) {
            Some(cells) => match cells.get(coordinate) {
                Some(n) => if *n <= 1 {
                    1
                } else {
                    *n
                },
                None => 0,
            },
            None => 0,
        }
    }
}

/// Cells under orders.
#[derive(Debug)]
pub struct CellSets {
    orders: Table<AxialSet>,
}

impl View for CellSets {
    type V = Map<u128, Set<Axial>>;

    closed spec fn view(&self) -> Map<u128, Set<Axial>> {
        self.orders@.map_values(|s: AxialSet| s@)
    }
}

impl CellSets {
    pub fn new() -> (sets: CellSets)
        ensures
            sets@ == Map::<u128, Set<Axial>>::empty(),
    {
        let sets = CellSets { orders: Table::new() };
        assert(sets@ =~= Map::<u128, Set<Axial>>::empty());
        sets
    }

    fn insert(&mut self, key: u128, coordinate: Axial)
        ensures
            final(self)@ == old(self)@.insert(key, set_at(old(self)@, key).insert(coordinate)),
    {
        let ghost before = self@;
        let mut cells: AxialSet = match self.orders.remove(key) {
            Some(cells) => cells,
            None => AxialSet::new(),
        };
        assert(cells@ =~= set_at(before, key));
        cells.insert(coordinate);
        self.orders.insert(key, cells);
        assert(self@ =~= before.insert(key, set_at(before, key).insert(coordinate)));
    }

    fn remove(&mut self, key: u128, coordinate: Axial)
        ensures
            final(self)@ == (if !old(self)@.contains_key(key) {
                old(self)@
            } else if old(self)@[key].remove(coordinate) =~= Set::<Axial>::empty() {
                old(self)@.remove(key)
            } else {
                old(self)@.insert(key, old(self)@[key].remove(coordinate))
            }),
    {
        let ghost before = self@;
        match self.orders.remove(key) {
            Some(cells) => {
                let mut cells = cells;
                assert(cells@ == before[key]);
                cells.remove(coordinate);
                if cells.is_empty() {
                    assert(self@ =~= before.remove(key));
                } else {
                    self.orders.insert(key, cells);
                    assert(self@ =~= before.insert(key, before[key].remove(coordinate)));
                }
            },
            None => {
                assert(self@ =~= before);
            },
        }
    }

    /// Whether a cell is noted under an order.
    pub fn contains(&self, order_id: u64, coordinate: Axial) -> (found: bool)
        ensures
            found == set_at(self@, order_id as u128).contains(coordinate),
    {
        match self.orders.get(order_id as u128) {
            Some(cells) => cells.contains(coordinate),
            None => false,
        }
    }

    /// Whether the same cells are noted.
    pub fn is_same(&self, other: &CellSets) -> (same: bool)
        ensures
            same == (self@ == other@),
    {
        let keys = self.orders.keys();
        let others = other.orders.keys();
        assert(self@.dom() =~= self.orders@.dom());
        assert(other@.dom() =~= other.orders@.dom());
        if !same_numbers(&keys, &others) {
            return false;
        }
        let mut i: usize = 0;
        while i < keys.len()
            invariant
                i <= keys@.len(),
                keys@.to_set() == self.orders@.dom(),
                keys@.to_set() == other.orders@.dom(),
                self@.dom() == self.orders@.dom(),
                other@.dom() == other.orders@.dom(),
                forall|k: int| 0 <= k < i ==> self@[#[trigger] keys@[k]] == other@[keys@[k]],
            decreases keys.len() - i,
        {
            let key = keys[i];
            assert(keys@.to_set().contains(key));
            let (a, b) = match (self.orders.get(key), other.orders.get(key)) {
                (Some(a), Some(b)) => (a.to_vec(), b.to_vec()),
                _ => vstd::pervasive::unreached(),
            };
            assert(self@[key] == self.orders@[key]@);
            assert(other@[key] == other.orders@[key]@);
            if !same_places(&a, &b) {
                assert(self@[key] != other@[key]);
                return false;
            }
            i += 1;
        }
        proof {
            assert forall|k: u128| self@.contains_key(k) implies self@[k] == other@[k] by {
                assert(keys@.to_set().contains(k));
                let n = choose|n: int| 0 <= n < keys@.len() && keys@[n] == k;
                assert(self@[keys@[n]] == other@[keys@[n]]);
            }
            assert(self@ =~= other@);
        }
        true
    }
}

/// Counts a cell under an order, or counts it down, and notes it beside.
pub fn adjust_counted_set(
    counts: &mut Claims,
    sets: &mut CellSets,
    order_id: u64,
    coordinate: Axial,
    adding: bool,
)
    ensures
        final(counts)@ == counted(old(counts)@, order_id as u128, coordinate, adding),
        final(sets)@ == noted(old(sets)@, old(counts)@, order_id as u128, coordinate, adding),
{
    if adding {
        sets.insert(order_id as u128, coordinate);
    } else if counts.count(order_id, coordinate) == 1 {
        sets.remove(order_id as u128, coordinate);
    }
    counts.adjust(order_id, coordinate, adding);
}

/// Whether two lists of numbers are the same.
pub fn same_numbers(a: &Vec<u128>, b: &Vec<u128>) -> (same: bool)
    ensures
        same == (a@ == b@),
{
    if a.len() != b.len() {
        return false;
    }
    let mut i: usize = 0;
    while i < a.len()
        invariant
            i <= a@.len(),
            a@.len() == b@.len(),
            forall|k: int| 0 <= k < i ==> a@[k] == b@[k],
        decreases a.len() - i,
    {
        if a[i] != b[i] {
            return false;
        }
        i += 1;
    }
    assert(a@ =~= b@);
    true
}

/// Whether two lists of coordinates are the same.
pub fn same_places(a: &Vec<Axial>, b: &Vec<Axial>) -> (same: bool)
    ensures
        same == (a@ == b@),
{
    if a.len() != b.len() {
        return false;
    }
    let mut i: usize = 0;
    while i < a.len()
        invariant
            i <= a@.len(),
            a@.len() == b@.len(),
            forall|k: int| 0 <= k < i ==> a@[k] == b@[k],
        decreases a.len() - i,
    {
        if a[i] != b[i] {
            return false;
        }
        i += 1;
    }
    assert(a@ =~= b@);
    true
}

/// Whether the same amounts are filed under the same cells.
pub fn same_amounts(a: &AxialMap<u64>, b: &AxialMap<u64>) -> (same: bool)
    ensures
        same == (a@ == b@),
{
    let keys = a.keys();
    let others = b.keys();
    if !same_places(&keys, &others) {
        return false;
    }
    let mut i: usize = 0;
    while i < keys.len()
        invariant
            i <= keys@.len(),
            keys@.to_set() == a@.dom(),
            keys@.to_set() == b@.dom(),
            forall|k: int| 0 <= k < i ==> a@[#[trigger] keys@[k]] == b@[keys@[k]],
        decreases keys.len() - i,
    {
        let key = keys[i];
        assert(keys@.to_set().contains(key));
        let (x, y): (u64, u64) = match (a.get(key), b.get(key)) {
            (Some(x), Some(y)) => (*x, *y),
            _ => vstd::pervasive::unreached(),
        };
        if x != y {
            return false;
        }
        i += 1;
    }
    proof {
        assert forall|c: Axial| a@.contains_key(c) implies a@[c] == b@[c] by {
            assert(keys@.to_set().contains(c));
            let n = choose|n: int| 0 <= n < keys@.len() && keys@[n] == c;
            assert(a@[keys@[n]] == b@[keys@[n]]);
        }
        assert(a@ =~= b@);
    }
    true
}

/// A directed edge between two cells as one number.
pub open spec fn edge_key(from_cell: u32, to_cell: u32) -> u128 {
    (from_cell * 0x1_0000_0000 + to_cell) as u128
}

/// Orders that cross edges, with their counts.
#[derive(Debug)]
pub struct Crossings {
    edges: Table<Table<u32>>,
}

impl View for Crossings {
    type V = Map<u128, Map<u128, u32>>;

    closed spec fn view(&self) -> Map<u128, Map<u128, u32>> {
        self.edges@.map_values(|m: Table<u32>| m@)
    }
}

fn key_of_edge(from_cell: u32, to_cell: u32) -> (key: u128)
    ensures
        key == edge_key(from_cell, to_cell),
{
    from_cell as u128 * 0x1_0000_0000 + to_cell as u128
}

impl Crossings {
    pub fn new() -> (crossings: Crossings)
        ensures
            crossings@ == Map::<u128, Map<u128, u32>>::empty(),
    {
        let crossings = Crossings { edges: Table::new() };
        assert(crossings@ =~= Map::<u128, Map<u128, u32>>::empty());
        crossings
    }

    pub fn adjust(&mut self, from_cell: u32, to_cell: u32, order_id: u64, adding: bool)
        ensures
            final(self)@ == counted(
                old(self)@,
                edge_key(from_cell, to_cell),
                order_id as u128,
                adding,
            ),
    {
        let ghost before = self@;
        let key: u128 = key_of_edge(from_cell, to_cell);
        let order: u128 = order_id as u128;
        let mut orders: Table<u32> = match self.edges.remove(key) {
            Some(orders) => orders,
            None => {
                if !adding {
                    assert(self@ =~= before);
                    return;
                }
                Table::new()
            },
        };
        assert(orders@ =~= group_at(before, key));
        let count: u32 = match orders.get(order) {
            Some(n) => *n,
            None => 0,
        };
        if adding {
            orders.insert(order, count_up(count));
        } else if orders.contains(order) {
            if count <= 1 {
                orders.remove(order);
                if orders.is_empty() {
                    assert(self@ =~= counted(before, key, order, adding));
                    return;
                }
            } else {
                orders.insert(order, count - 1);
            }
        }
        self.edges.insert(key, orders);
        assert(self@ =~= counted(before, key, order, adding));
    }

    /// The orders that cross an edge.
    pub fn orders_over(&self, from_cell: u32, to_cell: u32) -> (orders: Vec<u128>)
        ensures
            orders@.to_set() == group_at(self@, edge_key(from_cell, to_cell)).dom(),
    {
        match self.edges.get(key_of_edge(from_cell, to_cell)) {
            Some(orders) => orders.keys(),
            None => {
                let none: Vec<u128> = Vec::new();
                assert(none@.to_set() =~= Map::<u128, u32>::empty().dom());
                none
            },
        }
    }
}

} // verus!
