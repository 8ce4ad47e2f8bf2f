//! The in-memory table: a map from keys to values that can be walked.

use vstd::hash_map::StringHashMap;
use vstd::prelude::*;
use vstd::string::*;

verus! {

/// One key with its value.
struct Entry {
    key: String,
    value: String,
}

/// A map from keys to values. The entries stand in a row; the index tells where
/// in the row each key stands.
pub struct Table {
    entries: Vec<Entry>,
    index: StringHashMap<usize>,
}

impl View for Table {
    type V = Map<Seq<char>, Seq<char>>;

    closed spec fn view(&self) -> Map<Seq<char>, Seq<char>> {
        Map::new(
            |k: Seq<char>| self.index@.contains_key(k),
            |k: Seq<char>| self.entries@[self.index@[k] as int].value@,
        )
    }
}

/// Whether `items` lists every member of `keys` exactly once, in some order.
pub open spec fn lists(items: Seq<Seq<char>>, keys: Set<Seq<char>>) -> bool {
    items.no_duplicates() && items.to_set() == keys
}

impl Table {
    /// The index and the row agree: each entry is indexed under its key, and each
    /// indexed key leads to its entry.
    pub closed spec fn wf(&self) -> bool {
        &&& forall|i: int|
            0 <= i < self.entries@.len() ==> {
                &&& self.index@.contains_key((#[trigger] self.entries@[i]).key@)
                &&& self.index@[self.entries@[i].key@] == i
            }
        &&& forall|k: Seq<char>| #[trigger]
            self.index@.contains_key(k) ==> {
                &&& self.index@[k] < self.entries@.len()
                &&& self.entries@[self.index@[k] as int].key@ == k
            }
    }

    /// The keys in the order in which the table is walked.
    pub closed spec fn order(&self) -> Seq<Seq<char>> {
        Seq::new(self.entries@.len(), |i: int| self.entries@[i].key@)
    }

    /// The walk meets every key once.
    pub proof fn lemma_order(&self)
        requires
            self.wf(),
        ensures
            lists(self.order(), self@.dom()),
            self@.dom().finite(),
            self@.dom().len() == self.order().len(),
    {
        let order = self.order();
        assert forall|i: int, j: int| 0 <= i < j < order.len() implies order[i] != order[j] by {
            assert(self.index@[self.entries@[i].key@] == i);
            assert(self.index@[self.entries@[j].key@] == j);
        }
        assert forall|k: Seq<char>| order.to_set().contains(k) <==> self@.dom().contains(k) by {
            if order.contains(k) {
                let i = order.index_of(k);
                assert(self.entries@[i].key@ == k);
            }
            if self@.dom().contains(k) {
                assert(self.index@.contains_key(k));
                assert(order[self.index@[k] as int] == k);
            }
        }
        assert(order.to_set() =~= self@.dom());
        order.unique_seq_to_set();
    }

    /// An empty table.
    pub fn new() -> (r: Table)
        ensures
            r.wf(),
            r@ == Map::<Seq<char>, Seq<char>>::empty(),
    {
        let r = Table { entries: Vec::new(), index: StringHashMap::new() };
        proof {
            assert(r@ =~= Map::empty());
        }
        r
    }

    /// The number of keys.
    pub fn len(&self) -> (r: usize)
        requires
            self.wf(),
        ensures
            r == self@.len(),
            r == self.order().len(),
    {
        proof {
            self.lemma_order();
        }
        self.entries.len()
    }

    /// The value of a key.
    pub fn get(&self, key: &str) -> (r: Option<&String>)
        requires
            self.wf(),
        ensures
            match r {
                Some(v) => self@.contains_key(key@) && v@ == self@[key@],
                None => !self@.contains_key(key@),
            },
    {
        match self.index.get(key) {
            Some(i) => Some(&self.entries[*i].value),
            None => None,
        }
    }

    /// Whether the key is there.
    pub fn contains_key(&self, key: &str) -> (r: bool)
        requires
            self.wf(),
        ensures
            r == self@.contains_key(key@),
    {
        self.index.contains_key(key)
    }

    /// The key and the value at a place of the walk.
    pub fn entry(&self, i: usize) -> (r: (&String, &String))
        requires
            self.wf(),
            i < self.order().len(),
        ensures
            r.0@ == self.order()[i as int],
            self@.contains_key(r.0@),
            r.1@ == self@[r.0@],
    {
        let e: &Entry = &self.entries[i];
        (&e.key, &e.value)
    }

    /// Gives the key the value, whether it had one or not.
    pub fn insert(&mut self, key: String, value: String)
        requires
            old(self).wf(),
        ensures
            final(self).wf(),
            final(self)@ == old(self)@.insert(key@, value@),
    {
        let found: Option<usize> = match self.index.get(key.as_str()) {
            Some(i) => Some(*i),
            None => None,
        };
        match found {
            Some(i) => {
                self.entries[i] = Entry { key, value };
            },
            None => {
                let i: usize = self.entries.len();
                self.index.insert(key.clone(), i);
                self.entries.push(Entry { key, value });
            },
        }
        proof {
            assert(final(self)@ =~= old(self)@.insert(key@, value@));
        }
    }

    /// Takes the key out, and tells whether it was there.
    pub fn remove(&mut self, key: &str) -> (r: bool)
        requires
            old(self).wf(),
        ensures
            final(self).wf(),
            r == old(self)@.contains_key(key@),
            final(self)@ == old(self)@.remove(key@),
    {
        let found: Option<usize> = match self.index.get(key) {
            Some(i) => Some(*i),
            None => None,
        };
        match found {
            Some(i) => {
                self.index.remove(key);
                self.entries.swap_remove(i);
                if i < self.entries.len() {
                    let moved: String = self.entries[i].key.clone();
                    self.index.insert(moved, i);
                }
                proof {
                    assert(self@ =~= old(self)@.remove(key@));
                }
                true
            },
            None => {
                proof {
                    assert(self@ =~= old(self)@.remove(key@));
                }
                false
            },
        }
    }

    /// Takes every key out.
    pub fn clear(&mut self)
        requires
            old(self).wf(),
        ensures
            final(self).wf(),
            final(self)@ == Map::<Seq<char>, Seq<char>>::empty(),
    {
        self.entries.clear();
        self.index.clear();
        proof {
            assert(self@ =~= Map::empty());
        }
    }
}

} // verus!
