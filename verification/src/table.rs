//! Rows and sets under numbers.
use vstd::prelude::*;
use vstd::std_specs::btree::*;
use vstd::std_specs::cmp::OrdSpec;
use std::collections::BTreeMap;

verus! {

/// Strictly ascending numbers.
pub open spec fn keys_ascending(s: Seq<u128>) -> bool {
    forall|i: int, j: int| 0 <= i < j < s.len() ==> (#[trigger] s[i]) < (#[trigger] s[j])
}

/// The numbers of a set in ascending order.
pub open spec fn ordered_keys(set: Set<u128>) -> Seq<u128> {
    choose|s: Seq<u128>| keys_ascending(s) && s.to_set() == set
}

/// An ascending sequence is the one that its set is listed by.
pub proof fn lemma_ordered_keys_are(s: Seq<u128>, set: Set<u128>)
    requires
        keys_ascending(s),
        s.to_set() == set,
    ensures
        s == ordered_keys(set),
{
    let t = ordered_keys(set);
    assert(keys_ascending(t) && t.to_set() == set);
    crate::order::lemma_strictly_sorted_unique(s, t, |x: u128, y: u128| x < y);
}

/// The numbers of a finite set can be put in ascending order.
pub proof fn lemma_ordered_keys(set: Set<u128>)
    requires
        set.finite(),
    ensures
        keys_ascending(ordered_keys(set)),
        ordered_keys(set).to_set() == set,
{
    let s = lemma_key_listing(set);
    lemma_ordered_keys_are(s, set);
}

proof fn lemma_key_listing(set: Set<u128>) -> (s: Seq<u128>)
    requires
        set.finite(),
    ensures
        keys_ascending(s),
        s.to_set() == set,
    decreases set.len(),
{
    if set.len() == 0 {
        let s = Seq::<u128>::empty();
        assert(s.to_set() =~= set);
        s
    } else {
        let top = lemma_greatest_key(set);
        let rest = lemma_key_listing(set.remove(top));
        let s = rest.push(top);
        crate::axials::lemma_to_set_push(rest, top);
        assert(s.to_set() =~= set);
        assert forall|i: int, j: int| 0 <= i < j < s.len() implies (#[trigger] s[i]) < (
        #[trigger] s[j]) by {
            if j == rest.len() {
                assert(rest.to_set().contains(rest[i]));
            } else {
                assert(rest[i] < rest[j]);
            }
        }
        s
    }
}

proof fn lemma_greatest_key(set: Set<u128>) -> (top: u128)
    requires
        set.finite(),
        set.len() > 0,
    ensures
        set.contains(top),
        forall|k: u128| #[trigger] set.contains(k) && k != top ==> k < top,
    decreases set.len(),
{
    vstd::set_lib::lemma_set_empty_equivalency_len(set);
    let x = set.choose();
    let rest = set.remove(x);
    if rest.len() == 0 {
        assert(rest =~= Set::empty());
        assert forall|k: u128| #[trigger] set.contains(k) && k != x implies k < x by {
            assert(rest.contains(k));
        }
        x
    } else {
        let y = lemma_greatest_key(rest);
        let top = if x < y {
            y
        } else {
            x
        };
        assert forall|k: u128| #[trigger] set.contains(k) && k != top implies k < top by {
            if k != x {
                assert(rest.contains(k));
            }
        }
        top
    }
}

/// No key stands twice in an ascending list.
pub proof fn lemma_keys_are_distinct(s: Seq<u128>)
    requires
        keys_ascending(s),
    ensures
        s.no_duplicates(),
{
    assert forall|i: int, j: int| 0 <= i < s.len() && 0 <= j < s.len() && i != j implies s[i]
        != s[j] by {
        if i < j {
            assert(s[i] < s[j]);
        } else {
            assert(s[j] < s[i]);
        }
    }
}

/// Rows filed under numbers.
#[derive(Debug)]
pub struct Table<V> {
    rows: BTreeMap<u128, V>,
}

impl<V> View for Table<V> {
    type V = Map<u128, V>;

    closed spec fn view(&self) -> Map<u128, V> {
        self.rows@
    }
}

impl<V> Table<V> {
    pub fn new() -> (table: Table<V>)
        ensures
            table@ == Map::<u128, V>::empty(),
    {
        Table { rows: BTreeMap::new() }
    }

    pub fn insert(&mut self, key: u128, row: V)
        ensures
            final(self)@ == old(self)@.insert(key, row),
    {
        broadcast use vstd::laws_cmp::group_laws_cmp;
        broadcast use group_btree_axioms;

        self.rows.insert(key, row);
    }

    pub fn get(&self, key: u128) -> (row: Option<&V>)
        ensures
            row == (if self@.contains_key(key) {
                Some(&self@[key])
            } else {
                None
            }),
    {
        broadcast use vstd::laws_cmp::group_laws_cmp;
        broadcast use group_btree_axioms;

        self.rows.get(&key)
    }

    pub fn remove(&mut self, key: u128) -> (row: Option<V>)
        ensures
            final(self)@ == old(self)@.remove(key),
            row == (if old(self)@.contains_key(key) {
                Some(old(self)@[key])
            } else {
                None
            }),
    {
        broadcast use vstd::laws_cmp::group_laws_cmp;
        broadcast use group_btree_axioms;

        self.rows.remove(&key)
    }

    pub fn contains(&self, key: u128) -> (found: bool)
        ensures
            found == self@.contains_key(key),
    {
        self.get(key).is_some()
    }

    /// The numbers in ascending order.
    pub fn keys(&self) -> (listed: Vec<u128>)
        ensures
            keys_ascending(listed@),
            listed@.to_set() == self@.dom(),
            listed@ == ordered_keys(self@.dom()),
    {
        broadcast use vstd::laws_cmp::group_laws_cmp;
        broadcast use group_btree_axioms;

        let mut listed: Vec<u128> = Vec::new();
        for entry in it: self.rows.iter()
            invariant
                vstd::laws_cmp::obeys_cmp::<u128>(),
                forall|k: u128| #[trigger]
                    self@.contains_key(k) ==> exists|i: int|
                        0 <= i < it.seq().len() && *(#[trigger] it.seq()[i]).0 == k,
                forall|i: int|
                    0 <= i < it.seq().len() ==> self@.contains_key(*(#[trigger] it.seq()[i]).0),
                listed@.len() == it.index(),
                increasing_seq(it.seq().map_values(|kv: (&u128, &V)| *kv.0)),
                it.index() == it.seq().len() ==> listed@ =~= it.seq().map_values(
                    |kv: (&u128, &V)| *kv.0,
                ),
                forall|i: int| 0 <= i < it.index() ==> #[trigger] listed@[i] == *it.seq()[i].0,
                it.index() == it.seq().len() ==> forall|k: u128| #[trigger]
                    self@.contains_key(k) ==> listed@.contains(k),
                forall|i: int| 0 <= i < it.index() ==> self@.contains_key(#[trigger] listed@[i]),
        {
            listed.push(*entry.0);
            assert forall|k: u128| #[trigger]
                self@.contains_key(k) && it.index() + 1 == it.seq().len() implies listed@.contains(
                k,
            ) by {
                let i = choose|i: int| 0 <= i < it.seq().len() && *(#[trigger] it.seq()[i]).0 == k;
                assert(listed@[i] == k);
            }
        }
        proof {
            assert forall|i: int, j: int| 0 <= i < j < listed@.len() implies (
            #[trigger] listed@[i]) < (#[trigger] listed@[j]) by {
                assert(listed@[i].cmp_spec(&listed@[j]) is Less);
            }
            assert forall|k: u128| listed@.to_set().contains(k) <==> self@.dom().contains(k) by {
                if self@.dom().contains(k) {
                    assert(self@.contains_key(k));
                }
                if listed@.contains(k) {
                    let i = choose|i: int| 0 <= i < listed@.len() && listed@[i] == k;
                    assert(self@.contains_key(listed@[i]));
                }
            }
            assert(listed@.to_set() =~= self@.dom());
            lemma_ordered_keys_are(listed@, self@.dom());
        }
        listed
    }

    pub fn len(&self) -> (n: usize)
        ensures
            n == self@.dom().len(),
    {
        let listed = self.keys();
        proof {
            lemma_keys_are_distinct(listed@);
            listed@.unique_seq_to_set();
        }
        listed.len()
    }

    /// The rows in the order of their numbers.
    pub fn into_rows(self) -> (listed: Vec<V>)
        ensures
            listed@ == rows_in_order(self@),
    {
        let ghost given = self@;
        let keys = self.keys();
        let mut rest = self;
        let mut listed: Vec<V> = Vec::new();
        let mut i: usize = 0;
        proof {
            lemma_keys_are_distinct(keys@);
        }
        assert(keys@.take(0) =~= Seq::<u128>::empty());
        while i < keys.len()
            invariant
                i <= keys@.len(),
                keys@.no_duplicates(),
                keys@.to_set() == given.dom(),
                forall|k: u128| #[trigger]
                    rest@.contains_key(k) <==> given.contains_key(k) && !keys@.take(
                        i as int,
                    ).contains(k),
                forall|k: u128| #[trigger] rest@.contains_key(k) ==> rest@[k] == given[k],
                listed@ =~= keys@.take(i as int).map_values(|k: u128| given[k]),
            decreases keys.len() - i,
        {
            proof {
                lemma_take_more(keys@, i as int);
                assert(keys@.to_set().contains(keys@[i as int]));
                assert(keys@.take(i + 1) =~= keys@.take(i as int).push(keys@[i as int]));
            }
            match rest.remove(keys[i]) {
                Some(row) => {
                    listed.push(row);
                },
                None => {
                    vstd::pervasive::unreached()
                },
            }
            i += 1;
        }
        assert(keys@.take(i as int) =~= keys@);
        listed
    }

    pub fn is_empty(&self) -> (empty: bool)
        ensures
            empty == (self@.dom() =~= Set::<u128>::empty()),
    {
        let listed = self.keys();
        proof {
            if listed@.len() > 0 {
                assert(listed@.to_set().contains(listed@[0]));
            } else {
                assert(listed@.to_set() =~= Set::<u128>::empty());
            }
        }
        listed.len() == 0
    }
}

/// Rows in the order of their numbers.
pub open spec fn rows_in_order<V>(rows: Map<u128, V>) -> Seq<V> {
    ordered_keys(rows.dom()).map_values(|k: u128| rows[k])
}

/// A set of numbers.
#[derive(Debug)]
pub struct KeySet {
    members: Table<()>,
}

impl View for KeySet {
    type V = Set<u128>;

    closed spec fn view(&self) -> Set<u128> {
        self.members@.dom()
    }
}

impl KeySet {
    pub fn new() -> (set: KeySet)
        ensures
            set@ == Set::<u128>::empty(),
    {
        let set = KeySet { members: Table::new() };
        assert(set@ =~= Set::<u128>::empty());
        set
    }

    /// Puts a number in; whether it is new.
    pub fn insert(&mut self, key: u128) -> (fresh: bool)
        ensures
            final(self)@ == old(self)@.insert(key),
            fresh == !old(self)@.contains(key),
    {
        let fresh: bool = !self.members.contains(key);
        self.members.insert(key, ());
        assert(self@ =~= old(self)@.insert(key));
        fresh
    }

    pub fn remove(&mut self, key: u128)
        ensures
            final(self)@ == old(self)@.remove(key),
    {
        self.members.remove(key);
        assert(self@ =~= old(self)@.remove(key));
    }

    pub fn contains(&self, key: u128) -> (found: bool)
        ensures
            found == self@.contains(key),
    {
        self.members.contains(key)
    }

    pub fn is_empty(&self) -> (empty: bool)
        ensures
            empty == (self@ =~= Set::<u128>::empty()),
    {
        self.members.is_empty()
    }

    pub fn to_vec(&self) -> (listed: Vec<u128>)
        ensures
            keys_ascending(listed@),
            listed@.to_set() == self@,
            listed@ == ordered_keys(self@),
    {
        self.members.keys()
    }

    pub fn len(&self) -> (n: usize)
        ensures
            n == self@.len(),
    {
        self.members.len()
    }

    /// Puts all numbers of a list in.
    pub fn insert_all(&mut self, keys: &Vec<u128>)
        ensures
            final(self)@ == old(self)@.union(keys@.to_set()),
    {
        let ghost before = self@;
        let mut i: usize = 0;
        assert(self@ =~= before.union(keys@.take(0).to_set()));
        while i < keys.len()
            invariant
                i <= keys@.len(),
                self@ == before.union(keys@.take(i as int).to_set()),
            decreases keys.len() - i,
        {
            proof {
                assert(keys@.take(i + 1) =~= keys@.take(i as int).push(keys@[i as int]));
                crate::axials::lemma_to_set_push(keys@.take(i as int), keys@[i as int]);
            }
            self.insert(keys[i]);
            assert(self@ =~= before.union(keys@.take(i + 1).to_set()));
            i += 1;
        }
        assert(keys@.take(i as int) =~= keys@);
    }

    /// Puts all members of another set in.
    pub fn extend(&mut self, other: &KeySet)
        ensures
            final(self)@ == old(self)@.union(other@),
    {
        self.insert_all(&other.to_vec());
    }
}

/// Which numbers are filed under which.
pub open spec fn files(index: Map<u128, KeySet>, group: u128, key: u128) -> bool {
    index.contains_key(group) && index[group]@.contains(key)
}

/// Whether no group of an index is empty.
pub open spec fn is_lean(index: Map<u128, KeySet>) -> bool {
    forall|group: u128| #[trigger]
        index.contains_key(group) ==> !(index[group]@ =~= Set::<u128>::empty())
}

/// Files a number under a group.
pub fn file_under(index: &mut Table<KeySet>, group: u128, key: u128)
    requires
        is_lean(old(index)@),
    ensures
        is_lean(final(index)@),
        forall|g: u128, k: u128| #[trigger]
            files(final(index)@, g, k) <==> files(old(index)@, g, k) || (g == group && k == key),
{
    let ghost before = index@;
    let mut set = match index.remove(group) {
        Some(set) => set,
        None => KeySet::new(),
    };
    set.insert(key);
    assert(set@.contains(key));
    index.insert(group, set);
    proof {
        let after = index@;
        assert forall|g: u128| #[trigger] after.contains_key(g) implies !(after[g]@
            =~= Set::<u128>::empty()) by {
            if g != group {
                assert(before.contains_key(g));
            }
        }
        assert forall|g: u128, k: u128| #[trigger]
            files(after, g, k) <==> files(before, g, k) || (g == group && k == key) by {
            if g == group {
                assert(after[g] == set);
            }
        }
    }
}

/// Takes a number out of a group; a group without numbers goes.
pub fn remove_index_value(index: &mut Table<KeySet>, group: u128, key: u128)
    requires
        is_lean(old(index)@),
    ensures
        is_lean(final(index)@),
        forall|g: u128, k: u128| #[trigger]
            files(final(index)@, g, k) <==> files(old(index)@, g, k) && !(g == group && k == key),
{
    let ghost before = index@;
    match index.remove(group) {
        Some(set) => {
            let mut set = set;
            set.remove(key);
            let empty: bool = set.is_empty();
            if !empty {
                index.insert(group, set);
            }
            proof {
                let after = index@;
                assert forall|g: u128| #[trigger] after.contains_key(g) implies !(after[g]@
                    =~= Set::<u128>::empty()) by {
                    if g != group {
                        assert(before.contains_key(g));
                    }
                }
                assert forall|g: u128, k: u128| #[trigger]
                    files(after, g, k) <==> files(before, g, k) && !(g == group && k == key) by {
                    if g == group {
                        assert(set@.contains(k) <==> before[g]@.contains(k) && k != key);
                    }
                }
            }
        },
        None => {
            proof {
                let after = index@;
                assert(after =~= before);
            }
        },
    }
}

/// Puts all numbers of a group into a set.
pub fn extend_with_group(set: &mut KeySet, index: &Table<KeySet>, group: u128)
    ensures
        forall|k: u128| #[trigger]
            final(set)@.contains(k) <==> old(set)@.contains(k) || files(index@, group, k),
{
    match index.get(group) {
        Some(members) => {
            set.extend(members);
        },
        None => {},
    }
}

/// A row that comes, or goes.
pub type Change<V> = Option<V>;

/// Rows after changes: what comes is put in, what goes is taken out.
pub open spec fn rows_after<V>(
    rows: Map<u128, V>,
    changes: Map<u128, Change<V>>,
) -> Map<u128, V> {
    Map::new(
        |k: u128|
            if changes.contains_key(k) {
                changes[k] is Some
            } else {
                rows.contains_key(k)
            },
        |k: u128|
            if changes.contains_key(k) {
                changes[k].unwrap()
            } else {
                rows[k]
            },
    )
}

/// Applies changes to rows.
pub fn apply_changes<V>(rows: &mut Table<V>, changes: Table<Change<V>>)
    ensures
        final(rows)@ == rows_after(old(rows)@, changes@),
{
    let ghost before = rows@;
    let ghost given = changes@;
    let keys = changes.keys();
    let mut changes = changes;
    let mut i: usize = 0;
    assert(keys@.take(0) =~= Seq::<u128>::empty());
    while i < keys.len()
        invariant
            i <= keys@.len(),
            keys_ascending(keys@),
            keys@.to_set() == given.dom(),
            forall|k: u128|
                0 <= i && #[trigger] changes@.contains_key(k) <==> given.contains_key(k)
                    && !keys@.take(i as int).contains(k),
            forall|k: u128| #[trigger] changes@.contains_key(k) ==> changes@[k] == given[k],
            forall|k: u128|
                keys@.take(i as int).contains(k) ==> (#[trigger] rows@.contains_key(k)
                    <==> given[k] is Some) && (given[k] is Some ==> rows@[k] == given[k].unwrap()),
            forall|k: u128|
                !keys@.take(i as int).contains(k) ==> (#[trigger] rows@.contains_key(k)
                    <==> before.contains_key(k)) && (before.contains_key(k) ==> rows@[k]
                    == before[k]),
        decreases keys.len() - i,
    {
        let key = keys[i];
        proof {
            lemma_keys_are_distinct(keys@);
            lemma_take_more(keys@, i as int);
            assert(keys@.to_set().contains(key));
        }
        let ghost was = rows@;
        match changes.remove(key) {
            Some(change) => {
                match change {
                    Some(row) => {
                        rows.insert(key, row);
                    },
                    None => {
                        rows.remove(key);
                    },
                }
            },
            None => {
                vstd::pervasive::unreached()
            },
        }
        proof {
            assert forall|k: u128| !keys@.take(i + 1).contains(k) implies (
            #[trigger] rows@.contains_key(k) <==> before.contains_key(k)) && (before.contains_key(k)
                ==> rows@[k] == before[k]) by {
                assert(!keys@.take(i as int).contains(k) && k != key);
                assert(was.contains_key(k) <==> before.contains_key(k));
            }
            assert forall|k: u128| keys@.take(i + 1).contains(k) implies (
            #[trigger] rows@.contains_key(k) <==> given[k] is Some) && (given[k] is Some ==> rows@[k]
                == given[k].unwrap()) by {
                if k != key {
                    assert(was.contains_key(k) <==> given[k] is Some);
                }
            }
        }
        i += 1;
    }
    proof {
        assert(keys@.take(i as int) =~= keys@);
        assert forall|k: u128| keys@.contains(k) <==> given.contains_key(k) by {
            assert(keys@.to_set().contains(k) <==> keys@.contains(k));
        }
        assert(rows@ =~= rows_after(before, given));
    }
}

/// One more number of an ascending list.
pub proof fn lemma_take_more(keys: Seq<u128>, i: int)
    requires
        keys.no_duplicates(),
        0 <= i < keys.len(),
    ensures
        !keys.take(i).contains(keys[i]),
        forall|k: u128| #[trigger]
            keys.take(i + 1).contains(k) <==> keys.take(i).contains(k) || k == keys[i],
{
    let t = keys.take(i);
    let u = keys.take(i + 1);
    if t.contains(keys[i]) {
        let m = choose|m: int| 0 <= m < t.len() && t[m] == keys[i];
        assert(keys[m] == keys[i]);
    }
    assert forall|k: u128| #[trigger] u.contains(k) <==> t.contains(k) || k == keys[i] by {
        if t.contains(k) {
            let m = choose|m: int| 0 <= m < t.len() && t[m] == k;
            assert(u[m] == k);
        }
        assert(u[i] == keys[i]);
        if u.contains(k) && k != keys[i] {
            let m = choose|m: int| 0 <= m < u.len() && u[m] == k;
            assert(t[m] == k);
        }
    }
}

} // verus!
