//! A table from identifiers to values that can be changed in place.

use vstd::hash_map::StringHashMap;
use vstd::prelude::*;

verus! {

/// A table from identifiers to values. Each identifier owns one slot of the value list; the
/// value of an identifier that was removed stays in its slot, unreachable, until the table is
/// cleared.
#[verifier::reject_recursive_types(V)]
pub struct IdTable<V> {
    slots: StringHashMap<usize>,
    values: Vec<V>,
}

impl<V> View for IdTable<V> {
    type V = Map<Seq<char>, V>;

    closed spec fn view(&self) -> Map<Seq<char>, V> {
        Map::new(|k: Seq<char>| self.slots@.contains_key(k), |k: Seq<char>| self.values@[self.slots@[k] as int])
    }
}

impl<V> IdTable<V> {
    /// Slots exist, and no two identifiers share one.
    pub closed spec fn wf(&self) -> bool {
        &&& forall|k: Seq<char>| #[trigger]
            self.slots@.contains_key(k) ==> self.slots@[k] < self.values@.len()
        &&& forall|j: Seq<char>, k: Seq<char>|
            #![trigger self.slots@[j], self.slots@[k]]
            self.slots@.contains_key(j) && self.slots@.contains_key(k) && j != k ==> self.slots@[j]
                != self.slots@[k]
    }

    /// An empty table.
    pub fn new() -> (res: Self)
        ensures
            res.wf(),
            res@ == Map::<Seq<char>, V>::empty(),
    {
        let res = IdTable { slots: StringHashMap::new(), values: Vec::new() };
        proof {
            assert(res@ =~= Map::<Seq<char>, V>::empty());
        }
        res
    }

    /// The value of an identifier.
    pub fn get(&self, id: &str) -> (res: Option<&V>)
        requires
            self.wf(),
        ensures
            match res {
                Some(v) => self@.contains_key(id@) && *v == self@[id@],
                None => !self@.contains_key(id@),
            },
    {
        match self.slots.get(id) {
            Some(i) => Some(&self.values[*i]),
            None => None,
        }
    }

    /// Whether an identifier has a value.
    pub fn contains(&self, id: &str) -> (res: bool)
        ensures
            res == self@.contains_key(id@),
    {
        self.slots.contains_key(id)
    }

    /// Gives a value to an identifier that has none.
    pub fn add(&mut self, id: String, value: V)
        requires
            old(self).wf(),
            !old(self)@.contains_key(id@),
        ensures
            final(self).wf(),
            final(self)@ == old(self)@.insert(id@, value),
    {
        let slot: usize = self.values.len();
        self.values.push(value);
        self.slots.insert(id, slot);
        proof {
            assert(self@ =~= old(self)@.insert(id@, value));
        }
    }

    /// The value of an identifier, for changing it in place.
    pub fn get_mut(&mut self, id: &str) -> (res: Option<&mut V>)
        requires
            old(self).wf(),
        ensures
            final(self).wf(),
            match res {
                Some(v) => old(self)@.contains_key(id@) && *v == old(self)@[id@] && final(self)@
                    == old(self)@.insert(id@, *final(v)),
                None => !old(self)@.contains_key(id@) && final(self)@ == old(self)@,
            },
    {
        match self.slots.get(id) {
            Some(i) => {
                let slot: usize = *i;
                Some(&mut self.values[slot])
            },
            None => None,
        }
    }

    /// Takes the value of an identifier away.
    pub fn remove(&mut self, id: &str)
        requires
            old(self).wf(),
        ensures
            final(self).wf(),
            final(self)@ == old(self)@.remove(id@),
    {
        self.slots.remove(id);
        proof {
            assert(self@ =~= old(self)@.remove(id@));
        }
    }

    /// Takes every value away.
    pub fn clear(&mut self)
        ensures
            final(self).wf(),
            final(self)@ == Map::<Seq<char>, V>::empty(),
    {
        self.slots.clear();
        self.values.clear();
        proof {
            assert(self@ =~= Map::<Seq<char>, V>::empty());
        }
    }
}

} // verus!
