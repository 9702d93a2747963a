//! Ordered maps and sets of hex coordinates.
//!
//! Both keep their coordinates in ascending order, so that every walk over them
//! is the same for the same contents.
use vstd::prelude::*;
use vstd::std_specs::btree::*;
use vstd::std_specs::cmp::OrdSpec;
use std::collections::BTreeMap;
use crate::coord::{axial_lt, Axial, HexEdge};

verus! {

/// Strictly ascending coordinates.
pub open spec fn ascending(s: Seq<Axial>) -> bool {
    forall|i: int, j: int| 0 <= i < j < s.len() ==> axial_lt(#[trigger] s[i], #[trigger] s[j])
}

/// The coordinates of a set in ascending order.
pub open spec fn ordered(set: Set<Axial>) -> Seq<Axial> {
    choose|s: Seq<Axial>| ascending(s) && s.to_set() == set
}

/// An ascending sequence is determined by the set of its elements.
pub proof fn lemma_ascending_unique(s: Seq<Axial>, t: Seq<Axial>)
    requires
        ascending(s),
        ascending(t),
        s.to_set() == t.to_set(),
    ensures
        s == t,
    decreases s.len(),
{
    if s.len() == 0 {
        if t.len() > 0 {
            assert(t.to_set().contains(t[0]));
            assert(s.contains(t[0]));
        }
        assert(s =~= t);
    } else {
        assert(s.to_set().contains(s.last()));
        assert(t.contains(s.last()));
        let k = choose|k: int| 0 <= k < t.len() && t[k] == s.last();
        assert(t.to_set().contains(t.last()));
        assert(s.contains(t.last()));
        let m = choose|m: int| 0 <= m < s.len() && s[m] == t.last();
        if k < t.len() - 1 {
            assert(axial_lt(t[k], t[t.len() - 1]));
            if m < s.len() - 1 {
                assert(axial_lt(s[m], s[s.len() - 1]));
            }
            assert(false);
        }
        assert(s.last() == t.last());
        let s1 = s.drop_last();
        let t1 = t.drop_last();
        assert forall|x: Axial| s1.to_set().contains(x) <==> t1.to_set().contains(x) by {
            if s1.contains(x) {
                let i = choose|i: int| 0 <= i < s1.len() && s1[i] == x;
                assert(axial_lt(s[i], s[s.len() - 1]));
                assert(s[i] == x);
                assert(s.to_set().contains(x));
                assert(t.contains(x));
                let j = choose|j: int| 0 <= j < t.len() && t[j] == x;
                assert(j < t.len() - 1);
                assert(t1[j] == x);
            }
            if t1.contains(x) {
                let i = choose|i: int| 0 <= i < t1.len() && t1[i] == x;
                assert(axial_lt(t[i], t[t.len() - 1]));
                assert(t[i] == x);
                assert(t.to_set().contains(x));
                assert(s.contains(x));
                let j = choose|j: int| 0 <= j < s.len() && s[j] == x;
                assert(j < s.len() - 1);
                assert(s1[j] == x);
            }
        }
        assert(s1.to_set() =~= t1.to_set());
        lemma_ascending_unique(s1, t1);
        assert(s =~= s1.push(s.last()));
        assert(t =~= t1.push(t.last()));
    }
}

/// An ascending sequence is the ordered form of the set of its elements.
pub proof fn lemma_ordered_is(s: Seq<Axial>, set: Set<Axial>)
    requires
        ascending(s),
        s.to_set() == set,
    ensures
        ordered(set) == s,
{
    lemma_ascending_unique(s, ordered(set));
}

/// An ascending sequence holds nothing twice.
pub proof fn lemma_ascending_no_duplicates(s: Seq<Axial>)
    requires
        ascending(s),
    ensures
        s.no_duplicates(),
        s.to_set().finite(),
        s.to_set().len() == s.len(),
{
    assert forall|i: int, j: int| 0 <= i < s.len() && 0 <= j < s.len() && i != j implies s[i]
        != s[j] by {
        if i < j {
            assert(axial_lt(s[i], s[j]));
        } else {
            assert(axial_lt(s[j], s[i]));
        }
    }
    s.unique_seq_to_set();
}

/// The coordinates of a finite set can be put in ascending order.
pub proof fn lemma_ordered(set: Set<Axial>)
    requires
        set.finite(),
    ensures
        ascending(ordered(set)),
        ordered(set).to_set() == set,
{
    let s = lemma_listing(set);
    lemma_ordered_is(s, set);
}

proof fn lemma_listing(set: Set<Axial>) -> (s: Seq<Axial>)
    requires
        set.finite(),
    ensures
        ascending(s),
        s.to_set() == set,
    decreases set.len(),
{
    if set.len() == 0 {
        let s = Seq::<Axial>::empty();
        assert(s.to_set() =~= set);
        s
    } else {
        let top = lemma_greatest(set);
        let rest = lemma_listing(set.remove(top));
        let s = rest.push(top);
        lemma_to_set_push(rest, top);
        assert(s.to_set() =~= set);
        assert forall|i: int, j: int| 0 <= i < j < s.len() implies axial_lt(
            #[trigger] s[i],
            #[trigger] s[j],
        ) by {
            if j == rest.len() {
                assert(rest.to_set().contains(rest[i]));
            } else {
                assert(axial_lt(rest[i], rest[j]));
            }
        }
        s
    }
}

proof fn lemma_greatest(set: Set<Axial>) -> (top: Axial)
    requires
        set.finite(),
        set.len() > 0,
    ensures
        set.contains(top),
        forall|c: Axial| #[trigger] set.contains(c) && c != top ==> axial_lt(c, top),
    decreases set.len(),
{
    vstd::set_lib::lemma_set_empty_equivalency_len(set);
    let x = set.choose();
    let rest = set.remove(x);
    if rest.len() == 0 {
        assert(rest =~= Set::empty());
        assert forall|c: Axial| #[trigger] set.contains(c) && c != x implies axial_lt(c, x) by {
            assert(rest.contains(c));
        }
        x
    } else {
        let y = lemma_greatest(rest);
        let top = if axial_lt(x, y) {
            y
        } else {
            x
        };
        assert forall|c: Axial| #[trigger] set.contains(c) && c != top implies axial_lt(c, top) by {
            if c != x {
                assert(rest.contains(c));
            }
        }
        top
    }
}

/// An ordered map from coordinates.
#[derive(Debug, PartialEq, Eq)]
pub struct AxialMap<V> {
    entries: BTreeMap<u64, V>,
}

impl<V> View for AxialMap<V> {
    type V = Map<Axial, V>;

    closed spec fn view(&self) -> Map<Axial, V> {
        by_coordinate(self.entries@)
    }
}

/// A coordinate as one number; the numbers are ordered as the coordinates are.
spec fn packed(c: Axial) -> u64 {
    ((c.q + 0x8000_0000) * 0x1_0000_0000 + (c.r + 0x8000_0000)) as u64
}

/// The coordinate of a number.
spec fn unpacked(key: u64) -> Axial {
    Axial {
        q: (key as int / 0x1_0000_0000 - 0x8000_0000) as i32,
        r: (key as int % 0x1_0000_0000 - 0x8000_0000) as i32,
    }
}

proof fn lemma_packed(c: Axial)
    ensures
        packed(c) == (c.q + 0x8000_0000) * 0x1_0000_0000 + (c.r + 0x8000_0000),
        unpacked(packed(c)) == c,
{
}

proof fn lemma_unpacked(key: u64)
    ensures
        packed(unpacked(key)) == key,
        i32::MIN <= key as int / 0x1_0000_0000 - 0x8000_0000 <= i32::MAX,
        i32::MIN <= key as int % 0x1_0000_0000 - 0x8000_0000 <= i32::MAX,
{
}

/// The numbers tell coordinates apart and order them.
proof fn lemma_packing()
    ensures
        forall|c: Axial| unpacked(#[trigger] packed(c)) == c,
        forall|key: u64| packed(#[trigger] unpacked(key)) == key,
        forall|c: Axial, d: Axial| #[trigger] packed(c) < #[trigger] packed(d) <==> axial_lt(c, d),
{
    assert forall|c: Axial| unpacked(#[trigger] packed(c)) == c by {
        lemma_packed(c);
    }
    assert forall|key: u64| packed(#[trigger] unpacked(key)) == key by {
        lemma_unpacked(key);
    }
    assert forall|c: Axial, d: Axial| #[trigger] packed(c) < #[trigger] packed(d) <==> axial_lt(
        c,
        d,
    ) by {
        lemma_packed(c);
        lemma_packed(d);
    }
}

fn pack(c: Axial) -> (key: u64)
    ensures
        key == packed(c),
{
    let q: u64 = (c.q as i64 + 0x8000_0000) as u64;
    let r: u64 = (c.r as i64 + 0x8000_0000) as u64;
    q * 0x1_0000_0000 + r
}

fn unpack(key: u64) -> (c: Axial)
    ensures
        c == unpacked(key),
{
    proof {
        lemma_unpacked(key);
    }
    let q: i64 = (key / 0x1_0000_0000) as i64;
    let r: i64 = (key % 0x1_0000_0000) as i64;
    Axial { q: (q - 0x8000_0000) as i32, r: (r - 0x8000_0000) as i32 }
}

spec fn by_coordinate<V>(m: Map<u64, V>) -> Map<Axial, V> {
    Map::new(|c: Axial| m.contains_key(packed(c)), |c: Axial| m[packed(c)])
}

proof fn lemma_key_order()
    ensures
        vstd::laws_cmp::obeys_cmp::<u64>(),
        key_obeys_cmp_spec::<u64>(),
{
    broadcast use vstd::laws_cmp::group_laws_cmp;
    broadcast use group_btree_axioms;
    assert(vstd::laws_cmp::obeys_cmp::<u64>());
}

/// Numbers that increase ascend as coordinates.
proof fn lemma_increasing_ascends(keys: Seq<u64>, s: Seq<Axial>)
    requires
        increasing_seq(keys),
        s.len() == keys.len(),
        forall|i: int| 0 <= i < s.len() ==> (#[trigger] s[i]) == unpacked(keys[i]),
    ensures
        ascending(s),
{
    broadcast use group_btree_axioms;
    lemma_key_order();
    lemma_packing();
    assert forall|i: int, j: int| 0 <= i < j < s.len() implies axial_lt(
        #[trigger] s[i],
        #[trigger] s[j],
    ) by {
        assert(keys[i].cmp_spec(&keys[j]) is Less);
        assert(packed(s[i]) == keys[i] && packed(s[j]) == keys[j]);
    }
}

impl<V: Clone> Clone for AxialMap<V> {
    fn clone(&self) -> (copy: AxialMap<V>)
        ensures
            copy@ == self@,
    {
        AxialMap { entries: self.entries.clone() }
    }
}

/// `BTreeMap::get_mut`: hands out the value under a key, if there is one. What
/// the borrower leaves there is the value under that key afterwards, and no
/// other entry changes; without an entry the map stays as it is.
#[verifier::external_body]
fn entry_mut<V>(entries: &mut BTreeMap<u64, V>, key: u64) -> (value: Option<&mut V>)
    ensures
        match value {
            Some(v) => {
                &&& old(entries)@.contains_key(key)
                &&& *v == old(entries)@[key]
                &&& final(entries)@ == old(entries)@.insert(key, *final(v))
            },
            None => !old(entries)@.contains_key(key) && final(entries)@ == old(entries)@,
        },
{
    entries.get_mut(&key)
}

impl<V> AxialMap<V> {
    /// The map holds finitely many entries.
    pub proof fn lemma_finite(&self)
        ensures
            self@.dom().finite(),
    {
        broadcast use group_btree_axioms;

        lemma_packing();
        let f = |k: u64| unpacked(k);
        let image = self.entries@.dom().map(f);
        assert(self.entries@.dom().finite());
        vstd::set_lib::lemma_map_size_bound(self.entries@.dom(), image, f);
        assert forall|c: Axial| image.contains(c) <==> self@.dom().contains(c) by {
            if self@.dom().contains(c) {
                assert(self.entries@.dom().contains(packed(c)));
                assert(f(packed(c)) == c);
            }
        }
        assert(image =~= self@.dom());
    }

    pub fn new() -> (map: AxialMap<V>)
        ensures
            map@ == Map::<Axial, V>::empty(),
    {
        let map = AxialMap { entries: BTreeMap::new() };
        assert(map@ =~= Map::<Axial, V>::empty());
        map
    }

    /// Files a value under a coordinate; gives back the value it replaces.
    pub fn insert(&mut self, c: Axial, value: V) -> (replaced: Option<V>)
        ensures
            final(self)@ == old(self)@.insert(c, value),
            replaced == (if old(self)@.contains_key(c) {
                Some(old(self)@[c])
            } else {
                None
            }),
    {
        proof {
            lemma_key_order();
            lemma_packing();
        }
        let replaced = self.entries.insert(pack(c), value);
        assert(self@ =~= old(self)@.insert(c, value));
        replaced
    }

    /// Takes the entry of a coordinate out.
    pub fn remove(&mut self, c: Axial) -> (removed: Option<V>)
        ensures
            final(self)@ == old(self)@.remove(c),
            removed == (if old(self)@.contains_key(c) {
                Some(old(self)@[c])
            } else {
                None
            }),
    {
        broadcast use group_btree_axioms;

        proof {
            lemma_key_order();
            lemma_packing();
        }
        let removed = self.entries.remove(&pack(c));
        assert(self@ =~= old(self)@.remove(c));
        removed
    }

    pub fn get(&self, c: Axial) -> (value: Option<&V>)
        ensures
            value == (if self@.contains_key(c) {
                Some(&self@[c])
            } else {
                None
            }),
    {
        broadcast use group_btree_axioms;

        proof {
            lemma_key_order();
            lemma_packing();
        }
        self.entries.get(&pack(c))
    }

    pub fn get_mut(&mut self, c: Axial) -> (value: Option<&mut V>)
        ensures
            match value {
                Some(v) => {
                    &&& old(self)@.contains_key(c)
                    &&& *v == old(self)@[c]
                    &&& final(self)@ == old(self)@.insert(c, *final(v))
                },
                None => !old(self)@.contains_key(c) && final(self)@ == old(self)@,
            },
    {
        let key: u64 = pack(c);
        proof {
            lemma_packing();
        }
        let ghost before = self.entries@;
        let value = entry_mut(&mut self.entries, key);
        proof {
            assert forall|v: V|
                by_coordinate(#[trigger] before.insert(key, v)) == by_coordinate(before).insert(
                    c,
                    v,
                ) by {
                assert(by_coordinate(before.insert(key, v)) =~= by_coordinate(before).insert(c, v));
            }
        }
        value
    }

    pub fn contains(&self, c: Axial) -> (found: bool)
        ensures
            found == self@.contains_key(c),
    {
        broadcast use group_btree_axioms;

        proof {
            lemma_key_order();
            lemma_packing();
        }
        self.entries.contains_key(&pack(c))
    }

    /// The coordinates in ascending order.
    pub fn keys(&self) -> (listed: Vec<Axial>)
        ensures
            ascending(listed@),
            listed@.to_set() == self@.dom(),
            listed@ == ordered(self@.dom()),
    {
        broadcast use group_btree_axioms;

        proof {
            lemma_key_order();
            lemma_packing();
        }
        let mut listed: Vec<Axial> = Vec::new();
        let ghost mut keys = Seq::<u64>::empty();
        for entry in it: self.entries.iter()
            invariant
                forall|k: u64| #[trigger]
                    self.entries@.contains_key(k) ==> exists|i: int|
                        0 <= i < it.seq().len() && *(#[trigger] it.seq()[i]).0 == k,
                forall|i: int|
                    0 <= i < it.seq().len() ==> self.entries@.contains_key(
                        *(#[trigger] it.seq()[i]).0,
                    ),
                listed@.len() == it.index(),
                keys.len() == it.index(),
                increasing_seq(it.seq().map_values(|kv: (&u64, &V)| *kv.0)),
                it.index() == it.seq().len() ==> keys =~= it.seq().map_values(
                    |kv: (&u64, &V)| *kv.0,
                ),
                forall|i: int| 0 <= i < it.index() ==> #[trigger] keys[i] == *it.seq()[i].0,
                it.index() == it.seq().len() ==> forall|k: u64| #[trigger]
                    self.entries@.contains_key(k) ==> keys.contains(k),
                forall|i: int|
                    0 <= i < it.index() ==> self.entries@.contains_key(#[trigger] keys[i]),
                forall|i: int|
                    0 <= i < it.index() ==> (#[trigger] listed@[i]) == unpacked(keys[i]),
        {
            listed.push(unpack(*entry.0));
            proof {
                keys = keys.push(*entry.0);
            }
            assert forall|k: u64| #[trigger]
                self.entries@.contains_key(k) && it.index() + 1
                    == it.seq().len() implies keys.contains(k) by {
                let i = choose|i: int|
                    0 <= i < it.seq().len() && *(#[trigger] it.seq()[i]).0 == k;
                assert(keys[i] == k);
            }
        }
        proof {
            lemma_increasing_ascends(keys, listed@);
            assert forall|c: Axial| listed@.to_set().contains(c) <==> self@.dom().contains(c) by {
                if self@.dom().contains(c) {
                    assert(self.entries@.contains_key(packed(c)));
                    let i = choose|i: int| 0 <= i < keys.len() && keys[i] == packed(c);
                    assert(listed@[i] == c);
                }
                if listed@.contains(c) {
                    let i = choose|i: int| 0 <= i < listed@.len() && listed@[i] == c;
                    assert(self.entries@.contains_key(keys[i]));
                }
            }
            assert(listed@.to_set() =~= self@.dom());
            lemma_ordered_is(listed@, self@.dom());
        }
        listed
    }

    /// The least coordinate.
    pub fn first_key(&self) -> (least: Option<Axial>)
        ensures
            match least {
                Some(c) => self@.contains_key(c) && forall|d: Axial| #[trigger]
                    self@.contains_key(d) && d != c ==> axial_lt(c, d),
                None => self@.dom() == Set::<Axial>::empty(),
            },
    {
        broadcast use group_btree_axioms;

        proof {
            lemma_key_order();
            lemma_packing();
        }
        for entry in it: self.entries.iter()
            invariant
                it.index() == 0,
                increasing_seq(it.seq().map_values(|kv: (&u64, &V)| *kv.0)),
                key_obeys_cmp_spec::<u64>(),
                vstd::laws_cmp::obeys_cmp::<u64>(),
                forall|i: int|
                    0 <= i < it.seq().len() ==> self.entries@.contains_key(
                        *(#[trigger] it.seq()[i]).0,
                    ),
                forall|k: u64| #[trigger]
                    self.entries@.contains_key(k) ==> exists|i: int|
                        0 <= i < it.seq().len() && *(#[trigger] it.seq()[i]).0 == k,
        {
            let least = unpack(*entry.0);
            assert(self.entries@.contains_key(*it.seq()[0].0));
            assert forall|d: Axial| #[trigger] self@.contains_key(d) && d != least implies axial_lt(
                least,
                d,
            ) by {
                let k = packed(d);
                assert(self.entries@.contains_key(k));
                let i = choose|i: int| 0 <= i < it.seq().len() && *(#[trigger] it.seq()[i]).0 == k;
                let keys = it.seq().map_values(|kv: (&u64, &V)| *kv.0);
                assert(keys[i] == k);
                assert(keys[0] == *entry.0);
                assert(keys[0].cmp_spec(&keys[i]) is Less);
            }
            return Some(least);
        }
        assert forall|d: Axial| !self@.contains_key(d) by {
            if self.entries@.contains_key(packed(d)) {
                assert(false);
            }
        }
        assert(self@.dom() =~= Set::<Axial>::empty());
        None
    }

    pub fn len(&self) -> (n: usize)
        ensures
            n == self@.dom().len(),
            self@.dom().finite(),
    {
        broadcast use group_btree_axioms;

        proof {
            lemma_key_order();
            lemma_packing();
            self.lemma_finite();
            let f = |k: u64| unpacked(k);
            let keys = self.entries@.dom();
            let image = keys.map(f);
            assert(vstd::relations::injective_on(f, keys)) by {
                assert forall|k: u64, l: u64|
                    keys.contains(k) && keys.contains(l) && #[trigger] f(k) == #[trigger] f(l) implies k
                    == l by {
                    assert(packed(unpacked(k)) == packed(unpacked(l)));
                }
            }
            vstd::set_lib::lemma_map_size(keys, image, f);
            assert forall|c: Axial| image.contains(c) <==> self@.dom().contains(c) by {
                if self@.dom().contains(c) {
                    assert(keys.contains(packed(c)));
                    assert(f(packed(c)) == c);
                }
            }
            assert(image =~= self@.dom());
        }
        self.entries.len()
    }

    pub fn is_empty(&self) -> (empty: bool)
        ensures
            empty == (self@.dom() == Set::<Axial>::empty()),
    {
        let empty = self.entries.is_empty();
        proof {
            if empty {
                assert(self@.dom() =~= Set::<Axial>::empty());
            } else {
                assert(exists|k: u64| self.entries@.contains_key(k)) by {
                    if forall|k: u64| !self.entries@.contains_key(k) {
                        assert(self.entries@ =~= Map::empty());
                    }
                }
                let k = choose|k: u64| self.entries@.contains_key(k);
                lemma_packing();
                assert(self@.dom().contains(unpacked(k)));
            }
        }
        empty
    }
}

/// An ordered set of coordinates.
#[derive(Debug, PartialEq, Eq)]
pub struct AxialSet {
    members: AxialMap<()>,
}

impl View for AxialSet {
    type V = Set<Axial>;

    closed spec fn view(&self) -> Set<Axial> {
        self.members@.dom()
    }
}

impl Clone for AxialSet {
    fn clone(&self) -> (copy: AxialSet)
        ensures
            copy@ == self@,
    {
        AxialSet { members: self.members.clone() }
    }
}

impl AxialSet {
    /// The set is finite.
    pub proof fn lemma_finite(&self)
        ensures
            self@.finite(),
    {
        self.members.lemma_finite();
    }

    pub fn new() -> (set: AxialSet)
        ensures
            set@ == Set::<Axial>::empty(),
    {
        let set = AxialSet { members: AxialMap::new() };
        assert(set@ =~= Set::<Axial>::empty());
        set
    }

    /// The set of the listed coordinates.
    pub fn from_slice(coordinates: &[Axial]) -> (set: AxialSet)
        ensures
            set@ == coordinates@.to_set(),
    {
        let mut set = AxialSet::new();
        let mut i: usize = 0;
        assert(coordinates@.take(0).to_set() =~= Set::empty());
        while i < coordinates.len()
            invariant
                i <= coordinates.len(),
                set@ == coordinates@.take(i as int).to_set(),
            decreases coordinates.len() - i,
        {
            set.insert(coordinates[i]);
            proof {
                let t = coordinates@.take(i as int);
                assert(coordinates@.take(i + 1) =~= t.push(coordinates@[i as int]));
                lemma_to_set_push(t, coordinates@[i as int]);
            }
            i += 1;
        }
        assert(coordinates@.take(i as int) =~= coordinates@);
        set
    }

    /// Adds a coordinate; says whether it was new.
    pub fn insert(&mut self, c: Axial) -> (fresh: bool)
        ensures
            final(self)@ == old(self)@.insert(c),
            fresh == !old(self)@.contains(c),
    {
        let replaced = self.members.insert(c, ());
        assert(self@ =~= old(self)@.insert(c));
        replaced.is_none()
    }

    /// Takes a coordinate out; says whether it was there.
    pub fn remove(&mut self, c: Axial) -> (found: bool)
        ensures
            final(self)@ == old(self)@.remove(c),
            found == old(self)@.contains(c),
    {
        let removed = self.members.remove(c);
        assert(self@ =~= old(self)@.remove(c));
        removed.is_some()
    }

    pub fn contains(&self, c: Axial) -> (found: bool)
        ensures
            found == self@.contains(c),
    {
        self.members.contains(c)
    }

    pub fn is_empty(&self) -> (empty: bool)
        ensures
            empty == (self@ == Set::<Axial>::empty()),
    {
        self.members.is_empty()
    }

    /// Takes the least coordinate out.
    pub fn pop_first(&mut self) -> (least: Option<Axial>)
        ensures
            match least {
                Some(c) => {
                    &&& old(self)@.contains(c)
                    &&& forall|d: Axial| #[trigger]
                        old(self)@.contains(d) && d != c ==> axial_lt(c, d)
                    &&& final(self)@ == old(self)@.remove(c)
                },
                None => old(self)@ == Set::<Axial>::empty() && final(self)@ == old(self)@,
            },
    {
        match self.members.first_key() {
            Some(c) => {
                assert forall|d: Axial| #[trigger]
                    self@.contains(d) && d != c implies axial_lt(c, d) by {
                    assert(self.members@.contains_key(d));
                }
                self.remove(c);
                Some(c)
            },
            None => None,
        }
    }

    pub fn len(&self) -> (n: usize)
        ensures
            n == self@.len(),
            self@.finite(),
    {
        self.members.len()
    }

    /// The coordinates in ascending order.
    pub fn to_vec(&self) -> (listed: Vec<Axial>)
        ensures
            ascending(listed@),
            listed@.to_set() == self@,
            listed@ == ordered(self@),
    {
        self.members.keys()
    }
}

/// A longer sequence holds what it held and the new element.
pub proof fn lemma_to_set_push<A>(s: Seq<A>, x: A)
    ensures
        s.push(x).to_set() == s.to_set().insert(x),
{
    assert forall|y: A| s.push(x).to_set().contains(y) <==> s.to_set().insert(x).contains(y) by {
        if s.contains(y) {
            let i = choose|i: int| 0 <= i < s.len() && s[i] == y;
            assert(s.push(x)[i] == y);
        }
        assert(s.push(x)[s.len() as int] == x);
    }
    assert(s.push(x).to_set() =~= s.to_set().insert(x));
}

/// The order of edges: by the first endpoint, then by the second.
pub open spec fn edge_lt(e: HexEdge, f: HexEdge) -> bool {
    axial_lt(e.a, f.a) || (e.a == f.a && axial_lt(e.b, f.b))
}

/// Strictly ascending edges.
pub open spec fn edges_ascending(s: Seq<HexEdge>) -> bool {
    forall|i: int, j: int| 0 <= i < j < s.len() ==> edge_lt(#[trigger] s[i], #[trigger] s[j])
}

/// The edges of a set in ascending order.
pub open spec fn ordered_edges(set: Set<HexEdge>) -> Seq<HexEdge> {
    choose|s: Seq<HexEdge>| edges_ascending(s) && s.to_set() == set
}

/// An ascending sequence of edges is the one that its set is listed by.
pub proof fn lemma_ordered_edges_are(s: Seq<HexEdge>, set: Set<HexEdge>)
    requires
        edges_ascending(s),
        s.to_set() == set,
    ensures
        s == ordered_edges(set),
{
    let t = ordered_edges(set);
    assert(edges_ascending(t) && t.to_set() == set);
    crate::order::lemma_strictly_sorted_unique(s, t, |e: HexEdge, f: HexEdge| edge_lt(e, f));
}

/// A finite set of edges can be listed in ascending order.
pub proof fn lemma_ordered_edges(set: Set<HexEdge>)
    requires
        set.finite(),
    ensures
        edges_ascending(ordered_edges(set)),
        ordered_edges(set).to_set() == set,
{
    let s = lemma_edge_listing(set);
    lemma_ordered_edges_are(s, set);
}

proof fn lemma_edge_listing(set: Set<HexEdge>) -> (s: Seq<HexEdge>)
    requires
        set.finite(),
    ensures
        edges_ascending(s),
        s.to_set() == set,
    decreases set.len(),
{
    if set.len() == 0 {
        let s = Seq::<HexEdge>::empty();
        assert(s.to_set() =~= set);
        s
    } else {
        let top = lemma_greatest_edge(set);
        let rest = lemma_edge_listing(set.remove(top));
        let s = rest.push(top);
        lemma_to_set_push(rest, top);
        assert(s.to_set() =~= set);
        assert forall|i: int, j: int| 0 <= i < j < s.len() implies edge_lt(
            #[trigger] s[i],
            #[trigger] s[j],
        ) by {
            if j == rest.len() {
                assert(rest.to_set().contains(rest[i]));
            } else {
                assert(edge_lt(rest[i], rest[j]));
            }
        }
        s
    }
}

proof fn lemma_greatest_edge(set: Set<HexEdge>) -> (top: HexEdge)
    requires
        set.finite(),
        set.len() > 0,
    ensures
        set.contains(top),
        forall|e: HexEdge| #[trigger] set.contains(e) && e != top ==> edge_lt(e, top),
    decreases set.len(),
{
    vstd::set_lib::lemma_set_empty_equivalency_len(set);
    let x = set.choose();
    let rest = set.remove(x);
    if rest.len() == 0 {
        assert(rest =~= Set::empty());
        assert forall|e: HexEdge| #[trigger] set.contains(e) && e != x implies edge_lt(e, x) by {
            assert(rest.contains(e));
        }
        x
    } else {
        let below = lemma_greatest_edge(rest);
        let top = if edge_lt(below, x) {
            x
        } else {
            below
        };
        assert forall|e: HexEdge| #[trigger] set.contains(e) && e != top implies edge_lt(e, top) by {
            if e != x {
                assert(rest.contains(e));
            }
        }
        top
    }
}

/// An ordered map from edges, filed by first and second endpoint.
#[derive(Debug, PartialEq, Eq)]
pub struct EdgeMap<V> {
    rows: AxialMap<AxialMap<V>>,
}

impl<V> View for EdgeMap<V> {
    type V = Map<HexEdge, V>;

    closed spec fn view(&self) -> Map<HexEdge, V> {
        Map::new(
            |e: HexEdge| self.rows@.contains_key(e.a) && self.rows@[e.a]@.contains_key(e.b),
            |e: HexEdge| self.rows@[e.a]@[e.b],
        )
    }
}

impl<V: Clone> Clone for EdgeMap<V> {
    fn clone(&self) -> (copy: EdgeMap<V>)
        ensures
            copy@ == self@,
    {
        EdgeMap { rows: self.rows.clone() }
    }
}

impl<V> EdgeMap<V> {
    pub fn new() -> (map: EdgeMap<V>)
        ensures
            map@ == Map::<HexEdge, V>::empty(),
    {
        let map = EdgeMap { rows: AxialMap::new() };
        assert(map@ =~= Map::<HexEdge, V>::empty());
        map
    }

    pub fn insert(&mut self, edge: HexEdge, value: V)
        ensures
            final(self)@ == old(self)@.insert(edge, value),
    {
        let mut row = match self.rows.remove(edge.a) {
            Some(row) => row,
            None => AxialMap::new(),
        };
        row.insert(edge.b, value);
        self.rows.insert(edge.a, row);
        assert(self@ =~= old(self)@.insert(edge, value));
    }

    pub fn get(&self, edge: HexEdge) -> (value: Option<&V>)
        ensures
            value == (if self@.contains_key(edge) {
                Some(&self@[edge])
            } else {
                None
            }),
    {
        match self.rows.get(edge.a) {
            Some(row) => row.get(edge.b),
            None => None,
        }
    }

    /// The edges in ascending order.
    pub fn keys(&self) -> (listed: Vec<HexEdge>)
        ensures
            edges_ascending(listed@),
            listed@.to_set() == self@.dom(),
            listed@ == ordered_edges(self@.dom()),
    {
        let firsts = self.rows.keys();
        let mut listed: Vec<HexEdge> = Vec::new();
        let mut i: usize = 0;
        while i < firsts.len()
            invariant
                i <= firsts.len(),
                ascending(firsts@),
                firsts@.to_set() == self.rows@.dom(),
                edges_ascending(listed@),
                forall|k: int|
                    0 <= k < listed@.len() ==> self@.contains_key(#[trigger] listed@[k]) && exists|
                        m: int,
                    |
                        0 <= m < i && #[trigger] firsts@[m] == listed@[k].a,
                forall|m: int, b: Axial|
                    0 <= m < i && #[trigger] self.rows@[firsts@[m]]@.contains_key(b)
                        ==> listed@.contains(HexEdge { a: firsts@[m], b }),
            decreases firsts.len() - i,
        {
            let a = firsts[i];
            assert(firsts@.to_set().contains(a));
            let row = match self.rows.get(a) {
                Some(row) => row,
                None => {
                    assert(false);
                    i += 1;
                    continue;
                },
            };
            let seconds = row.keys();
            let ghost before = listed@;
            let mut j: usize = 0;
            while j < seconds.len()
                invariant
                    j <= seconds.len(),
                    i < firsts.len(),
                    ascending(firsts@),
                    firsts@.to_set() == self.rows@.dom(),
                    a == firsts@[i as int],
                    self.rows@.contains_key(a),
                    *row == self.rows@[a],
                    ascending(seconds@),
                    seconds@.to_set() == row@.dom(),
                    listed@.len() == before.len() + j,
                    listed@.take(before.len() as int) =~= before,
                    forall|k: int|
                        0 <= k < j ==> (#[trigger] listed@[before.len() + k]) == (HexEdge {
                            a,
                            b: seconds@[k],
                        }),
                decreases seconds.len() - j,
            {
                listed.push(HexEdge { a, b: seconds[j] });
                j += 1;
            }
            proof {
                let n = before.len() as int;
                assert forall|k: int| 0 <= k < n implies #[trigger] listed@[k] == before[k] by {
                    assert(listed@.take(n)[k] == before[k]);
                }
                assert forall|k: int| n <= k < listed@.len() implies (#[trigger] listed@[k]) == (
                HexEdge { a, b: seconds@[k - n] }) by {
                    assert(listed@[n + (k - n)] == (HexEdge { a, b: seconds@[k - n] }));
                }
                assert forall|k: int, l: int| 0 <= k < l < listed@.len() implies edge_lt(
                    #[trigger] listed@[k],
                    #[trigger] listed@[l],
                ) by {
                    if l < n {
                        assert(edge_lt(before[k], before[l]));
                    } else if k < n {
                        assert(listed@[k] == before[k]);
                        let m = choose|m: int| 0 <= m < i && #[trigger] firsts@[m] == before[k].a;
                        assert(axial_lt(firsts@[m], firsts@[i as int]));
                    } else {
                        assert(axial_lt(seconds@[k - n], seconds@[l - n]));
                    }
                }
                assert forall|k: int| 0 <= k < listed@.len() implies self@.contains_key(
                    #[trigger] listed@[k],
                ) && exists|m: int| 0 <= m < i + 1 && #[trigger] firsts@[m] == listed@[k].a by {
                    if k < n {
                        assert(listed@[k] == before[k]);
                        assert(self@.contains_key(before[k]));
                        let m = choose|m: int| 0 <= m < i && #[trigger] firsts@[m] == before[k].a;
                        assert(firsts@[m] == listed@[k].a);
                    } else {
                        assert(seconds@.to_set().contains(seconds@[k - n]));
                        assert(firsts@[i as int] == listed@[k].a);
                    }
                }
                assert forall|m: int, b: Axial|
                    0 <= m < i + 1 && #[trigger] self.rows@[firsts@[m]]@.contains_key(
                        b,
                    ) implies listed@.contains(HexEdge { a: firsts@[m], b }) by {
                    let e = HexEdge { a: firsts@[m], b };
                    if m < i {
                        assert(before.contains(e));
                        let k = choose|k: int| 0 <= k < before.len() && before[k] == e;
                        assert(listed@[k] == e);
                    } else {
                        assert(seconds@.to_set().contains(b));
                        let k = choose|k: int| 0 <= k < seconds@.len() && seconds@[k] == b;
                        assert(listed@[n + k] == e);
                    }
                }
            }
            i += 1;
        }
        proof {
            assert forall|e: HexEdge| listed@.to_set().contains(e) <==> self@.dom().contains(e) by {
                if self@.dom().contains(e) {
                    assert(firsts@.to_set().contains(e.a));
                    let m = choose|m: int| 0 <= m < firsts@.len() && firsts@[m] == e.a;
                    assert(self.rows@[firsts@[m]]@.contains_key(e.b));
                    assert(listed@.contains(HexEdge { a: firsts@[m], b: e.b }));
                }
                if listed@.contains(e) {
                    let k = choose|k: int| 0 <= k < listed@.len() && listed@[k] == e;
                    assert(self@.contains_key(listed@[k]));
                }
            }
            assert(listed@.to_set() =~= self@.dom());
            lemma_ordered_edges_are(listed@, self@.dom());
        }
        listed
    }

    pub fn len(&self) -> (n: usize)
        ensures
            n == self@.dom().len(),
    {
        let listed = self.keys();
        proof {
            assert forall|i: int, j: int|
                0 <= i < listed@.len() && 0 <= j < listed@.len() && i != j implies listed@[i]
                != listed@[j] by {
                if i < j {
                    assert(edge_lt(listed@[i], listed@[j]));
                } else {
                    assert(edge_lt(listed@[j], listed@[i]));
                }
            }
            listed@.unique_seq_to_set();
        }
        listed.len()
    }

    pub fn is_empty(&self) -> (empty: bool)
        ensures
            empty == (self@ =~= Map::<HexEdge, V>::empty()),
    {
        let listed = self.keys();
        proof {
            if listed@.len() > 0 {
                assert(listed@.to_set().contains(listed@[0]));
            } else {
                assert forall|e: HexEdge| !self@.dom().contains(e) by {
                    assert(!listed@.to_set().contains(e));
                }
            }
        }
        listed.len() == 0
    }
}

/// Whether a coordinate comes before another.
pub fn coordinate_lt(a: Axial, b: Axial) -> (before: bool)
    ensures
        before == axial_lt(a, b),
{
    a.q < b.q || (a.q == b.q && a.r < b.r)
}

/// What a list holds after one more has been put at its end.
pub proof fn lemma_contains_push<A>(s: Seq<A>, x: A, y: A)
    ensures
        s.push(x).contains(y) <==> s.contains(y) || x == y,
{
    if s.contains(y) {
        let i = choose|i: int| 0 <= i < s.len() && s[i] == y;
        assert(s.push(x)[i] == y);
    }
    assert(s.push(x)[s.len() as int] == x);
    if s.push(x).contains(y) {
        let i = choose|i: int| 0 <= i < s.push(x).len() && s.push(x)[i] == y;
        if i < s.len() {
            assert(s[i] == y);
        }
    }
}

} // verus!
