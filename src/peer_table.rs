use vstd::prelude::*;

verus! {

/// A table keyed by peer address, with at most one entry per address.
pub struct PeerTable<T> {
    entries: Vec<(String, T)>,
    model: Ghost<Map<Seq<char>, T>>,
}

impl<T> View for PeerTable<T> {
    type V = Map<Seq<char>, T>;

    closed spec fn view(&self) -> Map<Seq<char>, T> {
        self.model@
    }
}

impl<T> PeerTable<T> {
    /// Entries and model agree, and no address appears twice.
    pub closed spec fn wf(&self) -> bool {
        &&& forall|i: int|
            0 <= i < self.entries@.len() ==> {
                &&& #[trigger] self.model@.contains_key(self.entries@[i].0@)
                &&& self.model@[self.entries@[i].0@] == self.entries@[i].1
            }
        &&& forall|a: Seq<char>|
            #[trigger] self.model@.contains_key(a) ==> exists|i: int|
                0 <= i < self.entries@.len() && self.entries@[i].0@ == a
        &&& forall|i: int, j: int|
            0 <= i < self.entries@.len() && 0 <= j < self.entries@.len() && i != j
                ==> #[trigger] self.entries@[i].0@ != #[trigger] self.entries@[j].0@
    }

    pub fn new() -> (r: Self)
        ensures
            r.wf(),
            r@ == Map::<Seq<char>, T>::empty(),
    {
        PeerTable { entries: Vec::new(), model: Ghost(Map::empty()) }
    }

    fn find(&self, addr: &String) -> (r: Option<usize>)
        requires
            self.wf(),
        ensures
            match r {
                Some(i) => i < self.entries@.len() && self.entries@[i as int].0@ == addr@,
                None => !self@.contains_key(addr@),
            },
    {
        let mut i: usize = 0;
        while i < self.entries.len()
            invariant
                self.wf(),
                i <= self.entries@.len(),
                forall|j: int| 0 <= j < i ==> self.entries@[j].0@ != addr@,
            decreases self.entries@.len() - i,
        {
            if self.entries[i].0 == *addr {
                return Some(i);
            }
            i = i + 1;
        }
        None
    }

    /// Whether `addr` has an entry.
    pub fn contains(&self, addr: &String) -> (r: bool)
        requires
            self.wf(),
        ensures
            r == self@.contains_key(addr@),
    {
        match self.find(addr) {
            Some(i) => {
                proof {
                    assert(self.model@.contains_key(self.entries@[i as int].0@));
                }
                true
            },
            None => false,
        }
    }

    /// The entry of `addr`, if any.
    pub fn get(&self, addr: &String) -> (r: Option<&T>)
        requires
            self.wf(),
        ensures
            match r {
                Some(v) => self@.contains_key(addr@) && *v == self@[addr@],
                None => !self@.contains_key(addr@),
            },
    {
        match self.find(addr) {
            Some(i) => {
                proof {
                    assert(self.model@.contains_key(self.entries@[i as int].0@));
                }
                Some(&self.entries[i].1)
            },
            None => None,
        }
    }

    /// Takes the entry of `addr` out of the table.
    pub fn remove(&mut self, addr: &String) -> (r: Option<T>)
        requires
            old(self).wf(),
        ensures
            final(self).wf(),
            final(self)@ == old(self)@.remove(addr@),
            match r {
                Some(v) => old(self)@.contains_key(addr@) && v == old(self)@[addr@],
                None => !old(self)@.contains_key(addr@),
            },
    {
        match self.find(addr) {
            None => {
                proof {
                    assert(self.model@.remove(addr@) =~= self.model@);
                }
                None
            },
            Some(i) => {
                let ghost old_entries = self.entries@;
                let ghost old_model = self.model@;
                proof {
                    assert(old_model.contains_key(old_entries[i as int].0@));
                }
                let (_, v) = self.entries.remove(i);
                self.model = Ghost(old_model.remove(addr@));
                proof {
                    let n = self.entries@;
                    assert forall|j: int| 0 <= j < n.len() implies {
                        &&& #[trigger] self.model@.contains_key(n[j].0@)
                        &&& self.model@[n[j].0@] == n[j].1
                    } by {
                        let k = if j < i { j } else { j + 1 };
                        assert(n[j] == old_entries[k]);
                        assert(old_entries[k].0@ != old_entries[i as int].0@);
                        assert(old_model.contains_key(old_entries[k].0@));
                    }
                    assert forall|a: Seq<char>| #[trigger] self.model@.contains_key(a) implies exists|j: int|
                        0 <= j < n.len() && n[j].0@ == a by {
                        assert(old_model.contains_key(a));
                        let k = choose|k: int| 0 <= k < old_entries.len() && old_entries[k].0@ == a;
                        assert(k != i);
                        if k < i {
                            assert(n[k].0@ == a);
                        } else {
                            assert(n[k - 1].0@ == a);
                        }
                    }
                    assert forall|p: int, q: int|
                        0 <= p < n.len() && 0 <= q < n.len() && p != q
                        implies #[trigger] n[p].0@ != #[trigger] n[q].0@ by {
                        let pp = if p < i { p } else { p + 1 };
                        let qq = if q < i { q } else { q + 1 };
                        assert(n[p] == old_entries[pp]);
                        assert(n[q] == old_entries[qq]);
                    }
                }
                Some(v)
            },
        }
    }

    /// Adds an entry for an address that has none.
    pub fn insert_new(&mut self, addr: String, v: T)
        requires
            old(self).wf(),
            !old(self)@.contains_key(addr@),
        ensures
            final(self).wf(),
            final(self)@ == old(self)@.insert(addr@, v),
    {
        let ghost old_entries = self.entries@;
        let ghost old_model = self.model@;
        let ghost key = addr@;
        let ghost val = v;
        self.entries.push((addr, v));
        self.model = Ghost(old_model.insert(key, val));
        proof {
            let n = self.entries@;
            assert forall|j: int| 0 <= j < n.len() implies {
                &&& #[trigger] self.model@.contains_key(n[j].0@)
                &&& self.model@[n[j].0@] == n[j].1
            } by {
                if j < old_entries.len() {
                    assert(n[j] == old_entries[j]);
                    assert(old_model.contains_key(old_entries[j].0@));
                }
            }
            assert forall|a: Seq<char>| #[trigger] self.model@.contains_key(a) implies exists|j: int|
                0 <= j < n.len() && n[j].0@ == a by {
                if a == key {
                    assert(n[n.len() - 1].0@ == a);
                } else {
                    assert(old_model.contains_key(a));
                    let k = choose|k: int| 0 <= k < old_entries.len() && old_entries[k].0@ == a;
                    assert(n[k] == old_entries[k]);
                }
            }
            assert forall|p: int, q: int|
                0 <= p < n.len() && 0 <= q < n.len() && p != q
                implies #[trigger] n[p].0@ != #[trigger] n[q].0@ by {
                if p < old_entries.len() && q < old_entries.len() {
                    assert(n[p] == old_entries[p]);
                    assert(n[q] == old_entries[q]);
                } else if p < old_entries.len() {
                    assert(n[p] == old_entries[p]);
                    assert(old_model.contains_key(old_entries[p].0@));
                } else {
                    assert(n[q] == old_entries[q]);
                    assert(old_model.contains_key(old_entries[q].0@));
                }
            }
        }
    }

    /// Sets the entry of `addr`, replacing any earlier one.
    pub fn set(&mut self, addr: String, v: T)
        requires
            old(self).wf(),
        ensures
            final(self).wf(),
            final(self)@ == old(self)@.insert(addr@, v),
    {
        let _ = self.remove(&addr);
        self.insert_new(addr, v);
        proof {
            assert(self@ =~= old(self)@.insert(addr@, v));
        }
    }
}

} // verus!
