//! An ordered queue of prioritised coordinates.
use vstd::prelude::*;
use vstd::std_specs::btree::*;
use vstd::std_specs::cmp::OrdSpec;
use std::collections::BTreeMap;
use crate::coord::{axial_lt, Axial};

verus! {

/// The order of agenda entries: by first key, second key, then coordinate.
pub open spec fn entry_lt(x: (u64, u64, Axial), y: (u64, u64, Axial)) -> bool {
    x.0 < y.0 || (x.0 == y.0 && (x.1 < y.1 || (x.1 == y.1 && axial_lt(x.2, y.2))))
}

/// A set of entries from which the least one is taken first.
pub struct Agenda {
    entries: BTreeMap<((u64, u64), (i32, i32)), ()>,
}

impl View for Agenda {
    type V = Set<(u64, u64, Axial)>;

    closed spec fn view(&self) -> Set<(u64, u64, Axial)> {
        Set::new(
            |e: (u64, u64, Axial)| self.entries@.contains_key(((e.0, e.1), (e.2.q, e.2.r))),
        )
    }
}

proof fn lemma_key_order()
    ensures
        vstd::laws_cmp::obeys_cmp::<((u64, u64), (i32, i32))>(),
        key_obeys_cmp_spec::<((u64, u64), (i32, i32))>(),
{
    broadcast use vstd::laws_cmp::group_laws_cmp;
    broadcast use group_btree_axioms;

    assert(vstd::laws_cmp::obeys_cmp::<i32>());
    assert(vstd::laws_cmp::obeys_cmp::<u64>());
    assert(vstd::laws_cmp::obeys_cmp::<(i32, i32)>());
    assert(vstd::laws_cmp::obeys_cmp::<(u64, u64)>());
    assert(vstd::laws_cmp::obeys_cmp::<((u64, u64), (i32, i32))>());
}

impl Agenda {
    pub fn new() -> (agenda: Agenda)
        ensures
            agenda@ == Set::<(u64, u64, Axial)>::empty(),
    {
        let agenda = Agenda { entries: BTreeMap::new() };
        assert(agenda@ =~= Set::<(u64, u64, Axial)>::empty());
        agenda
    }

    pub fn insert(&mut self, first: u64, second: u64, at: Axial)
        ensures
            final(self)@ == old(self)@.insert((first, second, at)),
    {
        proof {
            lemma_key_order();
        }
        self.entries.insert(((first, second), (at.q, at.r)), ());
        assert(self@ =~= old(self)@.insert((first, second, at)));
    }

    pub fn remove(&mut self, first: u64, second: u64, at: Axial)
        ensures
            final(self)@ == old(self)@.remove((first, second, at)),
    {
        broadcast use group_btree_axioms;

        proof {
            lemma_key_order();
        }
        self.entries.remove(&((first, second), (at.q, at.r)));
        assert(self@ =~= old(self)@.remove((first, second, at)));
    }

    /// The least entry.
    fn first(&self) -> (least: Option<(u64, u64, Axial)>)
        ensures
            match least {
                Some(e) => self@.contains(e) && forall|f: (u64, u64, Axial)| #[trigger]
                    self@.contains(f) && f != e ==> entry_lt(e, f),
                None => self@ == Set::<(u64, u64, Axial)>::empty(),
            },
    {
        broadcast use group_btree_axioms;

        proof {
            lemma_key_order();
        }
        for entry in it: self.entries.iter()
            invariant
                it.index() == 0,
                increasing_seq(it.seq().map_values(|kv: (&((u64, u64), (i32, i32)), &())| *kv.0)),
                key_obeys_cmp_spec::<((u64, u64), (i32, i32))>(),
                vstd::laws_cmp::obeys_cmp::<((u64, u64), (i32, i32))>(),
                forall|i: int|
                    0 <= i < it.seq().len() ==> self.entries@.contains_key(
                        *(#[trigger] it.seq()[i]).0,
                    ),
                forall|k: ((u64, u64), (i32, i32))| #[trigger]
                    self.entries@.contains_key(k) ==> exists|i: int|
                        0 <= i < it.seq().len() && *(#[trigger] it.seq()[i]).0 == k,
        {
            let key = *entry.0;
            let least = (key.0.0, key.0.1, Axial { q: key.1.0, r: key.1.1 });
            assert(self.entries@.contains_key(*it.seq()[0].0));
            assert forall|f: (u64, u64, Axial)| #[trigger]
                self@.contains(f) && f != least implies entry_lt(least, f) by {
                let k = ((f.0, f.1), (f.2.q, f.2.r));
                assert(self.entries@.contains_key(k));
                let i = choose|i: int| 0 <= i < it.seq().len() && *(#[trigger] it.seq()[i]).0 == k;
                let keys = it.seq().map_values(|kv: (&((u64, u64), (i32, i32)), &())| *kv.0);
                assert(keys[i] == k);
                assert(keys[0] == key);
                assert(keys[0].cmp_spec(&keys[i]) is Less);
            }
            return Some(least);
        }
        assert forall|f: (u64, u64, Axial)| !self@.contains(f) by {
            if self.entries@.contains_key(((f.0, f.1), (f.2.q, f.2.r))) {
                assert(false);
            }
        }
        assert(self@ =~= Set::<(u64, u64, Axial)>::empty());
        None
    }

    /// Takes the least entry out.
    pub fn pop_first(&mut self) -> (least: Option<(u64, u64, Axial)>)
        ensures
            match least {
                Some(e) => {
                    &&& old(self)@.contains(e)
                    &&& forall|f: (u64, u64, Axial)| #[trigger]
                        old(self)@.contains(f) && f != e ==> entry_lt(e, f)
                    &&& final(self)@ == old(self)@.remove(e)
                },
                None => old(self)@ == Set::<(u64, u64, Axial)>::empty() && final(self)@ == old(
                    self,
                )@,
            },
    {
        match self.first() {
            Some(e) => {
                self.remove(e.0, e.1, e.2);
                Some(e)
            },
            None => None,
        }
    }
}

} // verus!
