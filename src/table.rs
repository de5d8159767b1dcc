//! A small map keyed by grid coordinate, kept as two parallel vectors with
//! distinct keys, and a set of coordinates built on it. Iteration follows
//! insertion order, so every walk over a table is deterministic.
use vstd::prelude::*;
use crate::coord::GridCoord;

verus! {

pub struct TileMap<V> {
    keys: Vec<GridCoord>,
    vals: Vec<V>,
}

impl<V: Copy> TileMap<V> {
    /// Keys in their stored order.
    pub closed spec fn key_seq(&self) -> Seq<GridCoord> {
        self.keys@
    }

    pub closed spec fn wf(&self) -> bool {
        &&& self.keys@.len() == self.vals@.len()
        &&& self.keys@.no_duplicates()
    }

    pub closed spec fn view(&self) -> Map<GridCoord, V> {
        Map::new(
            |c: GridCoord| self.keys@.contains(c),
            |c: GridCoord| self.vals@[self.keys@.index_of(c)],
        )
    }

    /// What the stored order gives a caller: the keys are distinct, they
    /// are exactly the domain of the view, and the view is finite.
    pub proof fn lemma_keys(&self)
        requires
            self.wf(),
        ensures
            self.key_seq().no_duplicates(),
            self.key_seq().to_set() == self@.dom(),
            self@.dom().finite(),
            self@.dom().len() == self.key_seq().len(),
            forall|i: int|
                0 <= i < self.key_seq().len() ==> #[trigger] self@.contains_key(self.key_seq()[i]),
    {
        assert(self.keys@.to_set() =~= self@.dom());
        self.keys@.unique_seq_to_set();
        assert forall|i: int| 0 <= i < self.key_seq().len() implies #[trigger] self@.contains_key(
            self.key_seq()[i],
        ) by {
            assert(self.keys@.contains(self.keys@[i]));
        }
    }

    proof fn lemma_at(&self, i: int)
        requires
            self.wf(),
            0 <= i < self.keys@.len(),
        ensures
            self@.contains_key(self.keys@[i]),
            self@[self.keys@[i]] == self.vals@[i],
    {
        let c = self.keys@[i];
        assert(self.keys@.contains(c));
        let j = self.keys@.index_of(c);
        assert(0 <= j < self.keys@.len() && self.keys@[j] == c);
    }

    pub fn new() -> (r: Self)
        ensures
            r.wf(),
            r@ == Map::<GridCoord, V>::empty(),
    {
        let r = TileMap { keys: Vec::new(), vals: Vec::new() };
        assert(r@ =~= Map::<GridCoord, V>::empty());
        r
    }

    pub fn len(&self) -> (r: usize)
        requires
            self.wf(),
        ensures
            r == self@.len(),
            r == self.key_seq().len(),
    {
        proof {
            self.lemma_keys();
        }
        self.keys.len()
    }

    pub fn key_at(&self, i: usize) -> (r: GridCoord)
        requires
            self.wf(),
            i < self.key_seq().len(),
        ensures
            r == self.key_seq()[i as int],
    {
        self.keys[i]
    }

    pub fn value_at(&self, i: usize) -> (r: V)
        requires
            self.wf(),
            i < self.key_seq().len(),
        ensures
            r == self@[self.key_seq()[i as int]],
    {
        proof {
            self.lemma_at(i as int);
        }
        self.vals[i]
    }

    /// The keys in their stored order, as a vector.
    pub fn keys(&self) -> (r: Vec<GridCoord>)
        requires
            self.wf(),
        ensures
            r@ == self.key_seq(),
    {
        self.keys.clone()
    }

    /// Position of `c` among the stored keys.
    fn find(&self, c: GridCoord) -> (r: Option<usize>)
        requires
            self.wf(),
        ensures
            match r {
                Some(i) => i < self.keys@.len() && self.keys@[i as int] == c,
                None => !self@.contains_key(c),
            },
    {
        let mut i: usize = 0;
        while i < self.keys.len()
            invariant
                self.wf(),
                i <= self.keys@.len(),
                forall|j: int| 0 <= j < i ==> self.keys@[j] != c,
            decreases self.keys@.len() - i,
        {
            if self.keys[i] == c {
                return Some(i);
            }
            i = i + 1;
        }
        None
    }

    pub fn contains(&self, c: GridCoord) -> (r: bool)
        requires
            self.wf(),
        ensures
            r == self@.contains_key(c),
    {
        match self.find(c) {
            Some(i) => {
                proof {
                    self.lemma_at(i as int);
                }
                true
            },
            None => false,
        }
    }

    pub fn get(&self, c: GridCoord) -> (r: Option<V>)
        requires
            self.wf(),
        ensures
            r == (if self@.contains_key(c) {
                Some(self@[c])
            } else {
                None::<V>
            }),
    {
        match self.find(c) {
            Some(i) => {
                proof {
                    self.lemma_at(i as int);
                }
                Some(self.vals[i])
            },
            None => None,
        }
    }

    /// Sets the value of `c`, adding the key when it is absent.
    pub fn insert(&mut self, c: GridCoord, v: V)
        requires
            old(self).wf(),
        ensures
            final(self).wf(),
            final(self)@ == old(self)@.insert(c, v),
    {
        let ghost before = *self;
        match self.find(c) {
            Some(i) => {
                self.vals.set(i, v);
                proof {
                    assert forall|k: GridCoord| self.keys@.contains(k) implies #[trigger] self@[k] == before@.insert(c, v)[k] by {
                        let j = self.keys@.index_of(k);
                        assert(self.keys@.contains(k));
                        if k == c {
                            assert(j == i);
                        } else {
                            assert(before.keys@.contains(k));
                            assert(before.keys@.index_of(k) == j);
                        }
                    }
                    assert(self@ =~= before@.insert(c, v));
                }
            },
            None => {
                self.keys.push(c);
                self.vals.push(v);
                proof {
                    let n = before.keys@.len();
                    assert(self.keys@.no_duplicates()) by {
                        assert forall|a: int, b: int|
                            0 <= a < self.keys@.len() && 0 <= b < self.keys@.len() && a != b
                            implies self.keys@[a] != self.keys@[b] by {
                            if a < n && b < n {
                            } else if a == n {
                                assert(before.keys@[b] == self.keys@[b]);
                                assert(before.keys@.contains(self.keys@[b]));
                            } else {
                                assert(before.keys@[a] == self.keys@[a]);
                                assert(before.keys@.contains(self.keys@[a]));
                            }
                        }
                    }
                    assert forall|k: GridCoord| #[trigger] self.keys@.contains(k) == before@.insert(c, v).contains_key(k) by {
                        if k != c && self.keys@.contains(k) {
                            let j = choose|j: int| 0 <= j < self.keys@.len() && self.keys@[j] == k;
                            assert(before.keys@[j] == k);
                        }
                        if before.keys@.contains(k) {
                            let j = choose|j: int| 0 <= j < before.keys@.len() && before.keys@[j] == k;
                            assert(self.keys@[j] == k);
                        }
                        if k == c {
                            assert(self.keys@[n as int] == c);
                        }
                    }
                    assert forall|k: GridCoord| self.keys@.contains(k) implies #[trigger] self@[k] == before@.insert(c, v)[k] by {
                        let j = self.keys@.index_of(k);
                        if k == c {
                            assert(self.keys@[n as int] == c);
                            assert(j == n);
                        } else {
                            assert(j < n);
                            assert(before.keys@[j] == k);
                            assert(before.keys@.contains(k));
                            assert(before.keys@.index_of(k) == j);
                        }
                    }
                    assert(self@ =~= before@.insert(c, v));
                }
            },
        }
    }

    /// Removes `c` and returns the value it had.
    pub fn remove(&mut self, c: GridCoord) -> (r: Option<V>)
        requires
            old(self).wf(),
        ensures
            final(self).wf(),
            final(self)@ == old(self)@.remove(c),
            r == (if old(self)@.contains_key(c) {
                Some(old(self)@[c])
            } else {
                None::<V>
            }),
    {
        let ghost before = *self;
        match self.find(c) {
            Some(i) => {
                proof {
                    before.lemma_at(i as int);
                }
                self.keys.remove(i);
                let v = self.vals.remove(i);
                proof {
                    let n = before.keys@.len();
                    // index in the old vectors of position j of the new ones
                    assert(forall|j: int|
                        0 <= j < i ==> #[trigger] self.keys@[j] == before.keys@[j] && self.vals@[j]
                            == before.vals@[j]);
                    assert(forall|j: int|
                        i <= j < n - 1 ==> #[trigger] self.keys@[j] == before.keys@[j + 1]
                            && self.vals@[j] == before.vals@[j + 1]);
                    assert(self.keys@.no_duplicates()) by {
                        assert forall|a: int, b: int|
                            0 <= a < self.keys@.len() && 0 <= b < self.keys@.len() && a != b
                            implies self.keys@[a] != self.keys@[b] by {
                            let oa = if a < i { a } else { a + 1 };
                            let ob = if b < i { b } else { b + 1 };
                            assert(self.keys@[a] == before.keys@[oa]);
                            assert(self.keys@[b] == before.keys@[ob]);
                        }
                    }
                    assert forall|k: GridCoord| #[trigger] self.keys@.contains(k) == before@.remove(c).contains_key(k) by {
                        if self.keys@.contains(k) {
                            let j = choose|j: int| 0 <= j < self.keys@.len() && self.keys@[j] == k;
                            let oj = if j < i { j } else { j + 1 };
                            assert(before.keys@[oj] == k);
                            assert(before.keys@.contains(k));
                            assert(k != c);
                        }
                        if before.keys@.contains(k) && k != c {
                            let oj = choose|j: int| 0 <= j < before.keys@.len() && before.keys@[j] == k;
                            assert(oj != i);
                            let j = if oj < i { oj } else { oj - 1 };
                            assert(self.keys@[j] == k);
                        }
                    }
                    assert forall|k: GridCoord| self.keys@.contains(k) implies #[trigger] self@[k] == before@.remove(c)[k] by {
                        let j = self.keys@.index_of(k);
                        let oj = if j < i { j } else { j + 1 };
                        assert(before.keys@[oj] == k);
                        before.lemma_at(oj);
                    }
                    assert(self@ =~= before@.remove(c));
                }
                Some(v)
            },
            None => {
                proof {
                    assert(before@.remove(c) =~= before@);
                }
                None
            },
        }
    }
}

/// A set of grid coordinates, kept in insertion order.
pub struct CoordSet {
    map: TileMap<()>,
}

impl CoordSet {
    pub closed spec fn key_seq(&self) -> Seq<GridCoord> {
        self.map.key_seq()
    }

    pub closed spec fn wf(&self) -> bool {
        self.map.wf()
    }

    pub closed spec fn view(&self) -> Set<GridCoord> {
        self.map@.dom()
    }

    /// The stored order lists each member once.
    pub proof fn lemma_keys(&self)
        requires
            self.wf(),
        ensures
            self.key_seq().no_duplicates(),
            self.key_seq().to_set() == self@,
            self@.finite(),
            self@.len() == self.key_seq().len(),
            forall|i: int| 0 <= i < self.key_seq().len() ==> #[trigger] self@.contains(self.key_seq()[i]),
    {
        self.map.lemma_keys();
    }

    pub fn new() -> (r: Self)
        ensures
            r.wf(),
            r@ == Set::<GridCoord>::empty(),
    {
        let r = CoordSet { map: TileMap::new() };
        assert(r@ =~= Set::<GridCoord>::empty());
        r
    }

    pub fn len(&self) -> (r: usize)
        requires
            self.wf(),
        ensures
            r == self@.len(),
            r == self.key_seq().len(),
    {
        self.map.len()
    }

    pub fn key_at(&self, i: usize) -> (r: GridCoord)
        requires
            self.wf(),
            i < self.key_seq().len(),
        ensures
            r == self.key_seq()[i as int],
    {
        self.map.key_at(i)
    }

    pub fn contains(&self, c: GridCoord) -> (r: bool)
        requires
            self.wf(),
        ensures
            r == self@.contains(c),
    {
        self.map.contains(c)
    }

    pub fn insert(&mut self, c: GridCoord)
        requires
            old(self).wf(),
        ensures
            final(self).wf(),
            final(self)@ == old(self)@.insert(c),
    {
        self.map.insert(c, ());
        assert(self@ =~= old(self)@.insert(c));
    }

    pub fn remove(&mut self, c: GridCoord)
        requires
            old(self).wf(),
        ensures
            final(self).wf(),
            final(self)@ == old(self)@.remove(c),
    {
        self.map.remove(c);
        assert(self@ =~= old(self)@.remove(c));
    }

    /// The members in their stored order, as a vector.
    pub fn to_vec(&self) -> (r: Vec<GridCoord>)
        requires
            self.wf(),
        ensures
            r@ == self.key_seq(),
    {
        let mut r: Vec<GridCoord> = Vec::new();
        let mut i: usize = 0;
        let n = self.len();
        while i < n
            invariant
                self.wf(),
                n == self.key_seq().len(),
                i <= n,
                r@ == self.key_seq().subrange(0, i as int),
            decreases n - i,
        {
            r.push(self.key_at(i));
            i = i + 1;
            assert(r@ =~= self.key_seq().subrange(0, i as int));
        }
        assert(r@ =~= self.key_seq());
        r
    }
}

} // verus!
