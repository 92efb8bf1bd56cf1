//! A map with string keys whose entries can be walked and taken out.
use vstd::hash_map::StringHashMap;
use vstd::prelude::*;

verus! {

/// The entries, and where each key stands among them.
#[verifier::reject_recursive_types(V)]
struct Table<V> {
    slots: Vec<(String, V)>,
    index: StringHashMap<usize>,
}

impl<V> Table<V> {
    /// Every key stands where the index says, and nowhere else.
    spec fn wf(self) -> bool {
        &&& forall|k: Seq<char>| #[trigger]
            self.index@.contains_key(k) ==> self.index@[k] < self.slots@.len()
                && self.slots@[self.index@[k] as int].0@ == k
        &&& forall|i: int|
            0 <= i < self.slots@.len() ==> self.index@.contains_key((#[trigger] self.slots@[i]).0@)
                && self.index@[self.slots@[i].0@] == i
    }

    spec fn map(self) -> Map<Seq<char>, V> {
        Map::new(
            |k: Seq<char>| self.index@.contains_key(k),
            |k: Seq<char>| self.slots@[self.index@[k] as int].1,
        )
    }

    fn new() -> (r: Table<V>)
        ensures
            r.wf(),
            r.map() == Map::<Seq<char>, V>::empty(),
    {
        let r = Table { slots: Vec::new(), index: StringHashMap::new() };
        assert(r.map() =~= Map::<Seq<char>, V>::empty());
        r
    }

    fn insert(&mut self, key: String, value: V)
        requires
            old(self).wf(),
        ensures
            final(self).wf(),
            final(self).map() == old(self).map().insert(key@, value),
    {
        let known: Option<usize> = match self.index.get(key.as_str()) {
            Some(i) => Some(*i),
            None => None,
        };
        match known {
            Some(i) => {
                self.slots.set(i, (key, value));
            },
            None => {
                self.index.insert(key.clone(), self.slots.len());
                self.slots.push((key, value));
            },
        }
        assert(self.map() =~= old(self).map().insert(key@, value));
    }

    fn remove(&mut self, key: &str) -> (r: Option<V>)
        requires
            old(self).wf(),
        ensures
            final(self).wf(),
            r == old(self).map().get(key@),
            final(self).map() == old(self).map().remove(key@),
    {
        let known: Option<usize> = match self.index.get(key) {
            Some(i) => Some(*i),
            None => None,
        };
        match known {
            Some(i) => {
                self.index.remove(key);
                let (_, value) = self.slots.swap_remove(i);
                if i < self.slots.len() {
                    self.index.insert(self.slots[i].0.clone(), i);
                }
                assert(self.map() =~= old(self).map().remove(key@));
                Some(value)
            },
            None => {
                assert(self.map() =~= old(self).map().remove(key@));
                None
            },
        }
    }
}

/// A map from strings to values.
#[verifier::reject_recursive_types(V)]
pub struct StringMap<V> {
    table: Table<V>,
}

/// Whether a list holds each entry of a map once.
pub open spec fn lists_entries<V>(entries: Seq<(String, V)>, map: Map<Seq<char>, V>) -> bool {
    &&& forall|i: int|
        0 <= i < entries.len() ==> map.contains_key((#[trigger] entries[i]).0@)
            && map[entries[i].0@] == entries[i].1
    &&& forall|i: int, j: int|
        0 <= i < j < entries.len() ==> (#[trigger] entries[i]).0@ != (#[trigger] entries[j]).0@
    &&& forall|k: Seq<char>| #[trigger]
        map.contains_key(k) ==> exists|i: int|
            0 <= i < entries.len() && (#[trigger] entries[i]).0@ == k
}

impl<V> View for StringMap<V> {
    type V = Map<Seq<char>, V>;

    closed spec fn view(&self) -> Map<Seq<char>, V> {
        self.table.map()
    }
}

impl<V> StringMap<V> {
    #[verifier::type_invariant]
    spec fn inv(self) -> bool {
        self.table.wf()
    }

    /// The map without entries.
    pub fn new() -> (r: StringMap<V>)
        ensures
            r@ == Map::<Seq<char>, V>::empty(),
    {
        StringMap { table: Table::new() }
    }

    /// The number of entries.
    pub fn len(&self) -> (r: usize)
        ensures
            r == self@.dom().len(),
            self@.dom().finite(),
    {
        proof {
            use_type_invariant(self);
            let slots = self.table.slots@;
            let keys = Seq::new(slots.len(), |i: int| slots[i].0@);
            assert(keys.no_duplicates()) by {
                assert forall|i: int, j: int|
                    0 <= i < keys.len() && 0 <= j < keys.len() && i != j implies keys[i]
                    != keys[j] by {
                    assert(self.table.index@[slots[i].0@] == i);
                    assert(self.table.index@[slots[j].0@] == j);
                }
            }
            assert(keys.to_set() =~= self@.dom()) by {
                assert forall|k: Seq<char>| self@.dom().contains(k) implies keys.to_set().contains(
                    k,
                ) by {
                    assert(keys[self.table.index@[k] as int] == k);
                    assert(keys.contains(k));
                }
                assert forall|k: Seq<char>| keys.to_set().contains(k) implies self@.dom().contains(
                    k,
                ) by {
                    let i = choose|i: int| 0 <= i < keys.len() && keys[i] == k;
                    assert(self.table.index@.contains_key(slots[i].0@));
                }
            }
            keys.unique_seq_to_set();
        }
        self.table.slots.len()
    }

    /// Whether there is an entry for a key.
    pub fn contains_key(&self, key: &str) -> (r: bool)
        ensures
            r == self@.contains_key(key@),
    {
        self.table.index.contains_key(key)
    }

    /// The value of a key.
    pub fn get(&self, key: &str) -> (r: Option<&V>)
        ensures
            match r {
                Some(value) => self@.contains_key(key@) && *value == self@[key@],
                None => !self@.contains_key(key@),
            },
    {
        proof {
            use_type_invariant(self);
        }
        match self.table.index.get(key) {
            Some(i) => Some(&self.table.slots[*i].1),
            None => None,
        }
    }

    /// Sets the value of a key.
    pub fn insert(&mut self, key: String, value: V)
        ensures
            final(self)@ == old(self)@.insert(key@, value),
    {
        proof {
            use_type_invariant(&*self);
        }
        let mut table: Table<V> = Table::new();
        std::mem::swap(&mut table, &mut self.table);
        table.insert(key, value);
        self.table = table;
    }

    /// Takes the entry of a key out.
    pub fn remove(&mut self, key: &str) -> (r: Option<V>)
        ensures
            r == old(self)@.get(key@),
            final(self)@ == old(self)@.remove(key@),
    {
        proof {
            use_type_invariant(&*self);
        }
        let mut table: Table<V> = Table::new();
        std::mem::swap(&mut table, &mut self.table);
        let value = table.remove(key);
        self.table = table;
        value
    }

    /// Takes all entries out.
    pub fn take_entries(&mut self) -> (r: Vec<(String, V)>)
        ensures
            lists_entries(r@, old(self)@),
            final(self)@ == Map::<Seq<char>, V>::empty(),
    {
        proof {
            use_type_invariant(&*self);
        }
        let mut table: Table<V> = Table::new();
        std::mem::swap(&mut table, &mut self.table);
        proof {
            let slots = table.slots@;
            assert forall|i: int, j: int| 0 <= i < j < slots.len() implies (#[trigger] slots[i]).0@
                != (#[trigger] slots[j]).0@ by {
                assert(table.index@[slots[i].0@] == i);
                assert(table.index@[slots[j].0@] == j);
            }
            assert forall|k: Seq<char>| #[trigger]
                old(self)@.contains_key(k) implies exists|i: int|
                0 <= i < slots.len() && (#[trigger] slots[i]).0@ == k by {
                assert(slots[table.index@[k] as int].0@ == k);
            }
        }
        table.slots
    }
}

} // verus!
