//! A map from relative paths to values, which keeps the order of insertion.

use vstd::prelude::*;

verus! {

/// A map from paths to values. No path occurs twice.
pub struct PathMap<V> {
    entries: Vec<(String, V)>,
}

impl<V> PathMap<V> {
    /// The path at a position.
    pub closed spec fn path_at(self, i: int) -> Seq<char> {
        self.entries@[i].0@
    }

    /// The value at a position.
    pub closed spec fn value_at(self, i: int) -> V {
        self.entries@[i].1
    }

    /// The number of paths.
    pub closed spec fn size(self) -> nat {
        self.entries@.len()
    }

    /// The position holds the path.
    pub open spec fn holds_at(self, i: int, path: Seq<char>) -> bool {
        0 <= i < self.size() && self.path_at(i) == path
    }

    /// No path occurs twice.
    #[verifier::type_invariant]
    pub open spec fn well_formed(self) -> bool {
        forall|i: int, j: int|
            0 <= i < self.size() && 0 <= j < self.size() && #[trigger] self.path_at(i)
                == #[trigger] self.path_at(j) ==> i == j
    }
}

impl<V> View for PathMap<V> {
    type V = Map<Seq<char>, V>;

    open spec fn view(&self) -> Map<Seq<char>, V> {
        Map::new(
            |path: Seq<char>| exists|i: int| self.holds_at(i, path),
            |path: Seq<char>| self.value_at(choose|i: int| self.holds_at(i, path)),
        )
    }
}

impl<V> PathMap<V> {
    /// The map holds at each path the value beside it.
    pub proof fn lemma_value_at(self, i: int)
        requires
            self.well_formed(),
            0 <= i < self.size(),
        ensures
            self@.dom().contains(self.path_at(i)),
            self@[self.path_at(i)] == self.value_at(i),
    {
        let path = self.path_at(i);
        assert(self.holds_at(i, path));
        let k = choose|k: int| self.holds_at(k, path);
        assert(self.path_at(k) == self.path_at(i));
    }

    /// The empty map.
    pub fn new() -> (map: PathMap<V>)
        ensures
            map.size() == 0,
            map@ == Map::<Seq<char>, V>::empty(),
    {
        let map = PathMap { entries: Vec::new() };
        assert(map@ =~= Map::<Seq<char>, V>::empty());
        map
    }

    /// The number of paths in the map.
    pub fn len(&self) -> (n: usize)
        ensures
            n == self.size(),
    {
        self.entries.len()
    }

    /// The path at a position.
    pub fn path(&self, i: usize) -> (path: &String)
        requires
            i < self.size(),
        ensures
            path@ == self.path_at(i as int),
    {
        &self.entries[i].0
    }

    /// The value at a position.
    pub fn value(&self, i: usize) -> (value: &V)
        requires
            i < self.size(),
        ensures
            *value == self.value_at(i as int),
    {
        &self.entries[i].1
    }

    /// The position of a path.
    fn index_of(&self, path: &String) -> (found: Option<usize>)
        ensures
            match found {
                Some(i) => self.holds_at(i as int, path@),
                None => !self@.dom().contains(path@),
            },
    {
        for i in 0..self.entries.len()
            invariant
                forall|k: int| 0 <= k < i ==> self.path_at(k) != path@,
        {
            if self.entries[i].0 == *path {
                return Some(i);
            }
        }
        None
    }

    /// The value of a path, where the map has the path.
    pub fn get(&self, path: &String) -> (found: Option<&V>)
        ensures
            match found {
                Some(value) => self@.dom().contains(path@) && *value == self@[path@],
                None => !self@.dom().contains(path@),
            },
    {
        proof {
            use_type_invariant(self);
        }
        match self.index_of(path) {
            Some(i) => {
                proof {
                    self.lemma_value_at(i as int);
                }
                Some(&self.entries[i].1)
            },
            None => None,
        }
    }

    /// Sets the value of a path. A path of the map stays where it is, with the new
    /// value; a new path comes last.
    pub fn insert(&mut self, path: String, value: V)
        ensures
            final(self)@ == old(self)@.insert(path@, value),
            final(self).size() == old(self).size() + (if old(self)@.dom().contains(path@) {
                0int
            } else {
                1
            }),
            forall|k: int|
                0 <= k < old(self).size() ==> #[trigger] final(self).path_at(k) == old(
                    self,
                ).path_at(k),
            !old(self)@.dom().contains(path@) ==> final(self).path_at(old(self).size() as int)
                == path@,
    {
        proof {
            use_type_invariant(&*self);
        }
        let ghost before = *self;
        let ghost wanted = path@;
        let found = self.index_of(&path);
        let mut entries: Vec<(String, V)> = Vec::new();
        std::mem::swap(&mut entries, &mut self.entries);
        match found {
            Some(i) => {
                entries.set(i, (path, value));
                proof {
                    let after = PathMap { entries };
                    assert(before.holds_at(i as int, wanted));
                    assert forall|k: int| 0 <= k < after.size() implies #[trigger] after.path_at(k)
                        == before.path_at(k) by {}
                    assert forall|k: int|
                        0 <= k < before.size() && k != i implies #[trigger] after.path_at(k)
                        != wanted && after.value_at(k) == before.value_at(k) by {
                        assert(before.path_at(k) != before.path_at(i as int));
                    }
                    after.lemma_replaced(before, i as int, wanted, value);
                }
            },
            None => {
                entries.push((path, value));
                proof {
                    let after = PathMap { entries };
                    let last = before.size() as int;
                    assert forall|k: int| 0 <= k < last implies #[trigger] after.path_at(k)
                        == before.path_at(k) && after.path_at(k) != wanted && after.value_at(k)
                        == before.value_at(k) by {
                        assert(after.entries@[k] == before.entries@[k]);
                        assert(before.holds_at(k, before.path_at(k)));
                    }
                    after.lemma_replaced(before, last, wanted, value);
                }
            },
        }
        self.entries = entries;
    }

    /// Two maps that agree but for the value of one path.
    proof fn lemma_replaced(self, before: PathMap<V>, at: int, path: Seq<char>, value: V)
        requires
            before.well_formed(),
            self.size() == before.size() || (self.size() == before.size() + 1 && at
                == before.size()),
            0 <= at < self.size(),
            self.path_at(at) == path,
            self.value_at(at) == value,
            forall|k: int|
                0 <= k < before.size() ==> #[trigger] self.path_at(k) == before.path_at(k),
            forall|k: int|
                0 <= k < before.size() && k != at ==> #[trigger] self.path_at(k) != path
                    && self.value_at(k) == before.value_at(k),
        ensures
            self.well_formed(),
            self@ == before@.insert(path, value),
    {
        assert(self.well_formed());
        assert forall|p: Seq<char>| self@.dom().contains(p) <==> before@.insert(
            path,
            value,
        ).dom().contains(p) by {
            if self@.dom().contains(p) {
                let k = choose|k: int| self.holds_at(k, p);
                if k != at {
                    assert(before.holds_at(k, p));
                }
            }
            if before@.dom().contains(p) {
                let k = choose|k: int| before.holds_at(k, p);
                assert(self.holds_at(k, p));
            }
            if p == path {
                assert(self.holds_at(at, p));
            }
        }
        assert forall|p: Seq<char>| self@.dom().contains(p) implies self@[p] == before@.insert(
            path,
            value,
        )[p] by {
            let k = choose|k: int| self.holds_at(k, p);
            self.lemma_value_at(k);
            if k != at {
                before.lemma_value_at(k);
            }
        }
        assert(self@ =~= before@.insert(path, value));
    }
}

} // verus!
