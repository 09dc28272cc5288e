//! A map from package names to accumulated [`Demand`], stored as a vector
//! of entries with distinct keys. Used for the `done` and pending maps of
//! the engine and for the result of one derivation pass.

use vstd::prelude::*;
use crate::demand::{Demand, DemandView};

verus! {

pub struct DemandMap {
    entries: Vec<(String, Demand)>,
}

impl View for DemandMap {
    type V = Map<Seq<char>, DemandView>;

    closed spec fn view(&self) -> Map<Seq<char>, DemandView> {
        Map::new(
            |k: Seq<char>|
                exists|i: int| 0 <= i < self.entries@.len() && self.entries@[i].0@ == k,
            |k: Seq<char>| self.entries@[self.index_of(k)].1@,
        )
    }
}

impl DemandMap {
    spec fn index_of(&self, k: Seq<char>) -> int {
        choose|i: int| 0 <= i < self.entries@.len() && self.entries@[i].0@ == k
    }

    pub closed spec fn wf(&self) -> bool {
        &&& forall|i: int, j: int|
            0 <= i < j < self.entries@.len() ==> self.entries@[i].0@ != self.entries@[j].0@
        &&& forall|i: int| 0 <= i < self.entries@.len() ==> (#[trigger] self.entries@[i].1).wf()
    }

    /// The keys in entry order.
    pub closed spec fn key_seq(&self) -> Seq<Seq<char>> {
        Seq::new(self.entries@.len(), |i: int| self.entries@[i].0@)
    }

    proof fn lemma_entry(&self, i: int)
        requires
            self.wf(),
            0 <= i < self.entries@.len(),
        ensures
            self@.contains_key(self.entries@[i].0@),
            self@[self.entries@[i].0@] == self.entries@[i].1@,
    {
        let k = self.entries@[i].0@;
        assert(self@.contains_key(k));
        let j = self.index_of(k);
        assert(0 <= j < self.entries@.len() && self.entries@[j].0@ == k);
        if i != j {
            assert(self.entries@[i].0@ != self.entries@[j].0@);
            assert(false);
        }
    }

    /// Every key of the map occurs in `key_seq`, exactly once, and
    /// conversely.
    pub proof fn lemma_keys(&self)
        requires
            self.wf(),
        ensures
            forall|k: Seq<char>| #[trigger] self@.contains_key(k) <==> self.key_seq().contains(k),
            forall|i: int, j: int|
                0 <= i < j < self.key_seq().len() ==> self.key_seq()[i] != self.key_seq()[j],
    {
        assert forall|i: int, j: int|
            0 <= i < j < self.key_seq().len() implies self.key_seq()[i]
            != self.key_seq()[j] by {
            assert(self.entries@[i].0@ != self.entries@[j].0@);
        };
        assert forall|k: Seq<char>| #[trigger] self@.contains_key(k) implies self.key_seq()
            .contains(k) by {
            let i = choose|i: int| 0 <= i < self.entries@.len() && self.entries@[i].0@ == k;
            assert(self.key_seq()[i] == k);
        };
        assert forall|k: Seq<char>| self.key_seq().contains(k) implies self@.contains_key(k) by {
            let i = choose|i: int| 0 <= i < self.key_seq().len() && self.key_seq()[i] == k;
            assert(self.entries@[i].0@ == k);
        };
    }

    pub fn new() -> (m: DemandMap)
        ensures
            m.wf(),
            m@ == Map::<Seq<char>, DemandView>::empty(),
            m.key_seq() == Seq::<Seq<char>>::empty(),
    {
        let m = DemandMap { entries: Vec::new() };
        proof {
            assert(m@ =~= Map::<Seq<char>, DemandView>::empty());
            assert(m.key_seq() =~= Seq::<Seq<char>>::empty());
        }
        m
    }

    fn position(&self, k: &String) -> (r: Option<usize>)
        ensures
            match r {
                Some(i) => i < self.entries@.len() && self.entries@[i as int].0@ == k@
                    && self@.contains_key(k@),
                None => !self@.contains_key(k@),
            },
    {
        let n = self.entries.len();
        let mut i: usize = 0;
        while i < n
            invariant
                n == self.entries@.len(),
                i <= n,
                forall|j: int| 0 <= j < i ==> self.entries@[j].0@ != k@,
            decreases n - i,
        {
            if self.entries[i].0.eq(k) {
                proof {
                    assert(self.entries@[i as int].0@ == k@);
                }
                return Some(i);
            }
            i += 1;
        }
        proof {
            if self@.contains_key(k@) {
                let j = choose|j: int|
                    0 <= j < self.entries@.len() && self.entries@[j].0@ == k@;
                assert(false);
            }
        }
        None
    }

    pub fn contains_name(&self, k: &String) -> (b: bool)
        ensures
            b == self@.contains_key(k@),
    {
        self.position(k).is_some()
    }

    pub fn get(&self, k: &String) -> (r: Option<&Demand>)
        requires
            self.wf(),
        ensures
            match r {
                Some(d) => self@.contains_key(k@) && d@ == self@[k@] && d.wf(),
                None => !self@.contains_key(k@),
            },
    {
        match self.position(k) {
            Some(i) => {
                proof {
                    self.lemma_entry(i as int);
                }
                Some(&self.entries[i].1)
            },
            None => None,
        }
    }

    pub fn remove(&mut self, k: &String) -> (r: Option<Demand>)
        requires
            old(self).wf(),
        ensures
            final(self).wf(),
            final(self)@ == old(self)@.remove(k@),
            match r {
                Some(d) => old(self)@.contains_key(k@) && d@ == old(self)@[k@] && d.wf(),
                None => !old(self)@.contains_key(k@),
            },
    {
        match self.position(k) {
            Some(i) => {
                proof {
                    self.lemma_entry(i as int);
                }
                let ghost prev = self.entries@;
                let (_, d) = self.entries.remove(i);
                proof {
                    assert(self.entries@ == prev.remove(i as int));
                    assert forall|j1: int, j2: int|
                        0 <= j1 < j2 < self.entries@.len() implies self.entries@[j1].0@
                        != self.entries@[j2].0@ by {
                        let o1: int = if j1 < i { j1 } else { j1 + 1 };
                        let o2: int = if j2 < i { j2 } else { j2 + 1 };
                        assert(self.entries@[j1] == prev[o1]);
                        assert(self.entries@[j2] == prev[o2]);
                    };
                    assert forall|j: int| 0 <= j < self.entries@.len() implies (
                    #[trigger] self.entries@[j].1).wf() by {
                        let o: int = if j < i { j } else { j + 1 };
                        assert(self.entries@[j] == prev[o]);
                    };
                    assert(self@ =~= old(self)@.remove(k@)) by {
                        assert forall|q: Seq<char>| #[trigger] self@.contains_key(q)
                            implies old(self)@.remove(k@).contains_key(q) && self@[q] == old(
                            self,
                        )@.remove(k@)[q] by {
                            let j = choose|j: int|
                                0 <= j < self.entries@.len() && self.entries@[j].0@ == q;
                            let o: int = if j < i { j } else { j + 1 };
                            assert(self.entries@[j] == prev[o]);
                            assert(prev[o].0@ == q);
                            assert(o != i);
                            assert(prev[i as int].0@ != q);
                            old(self).lemma_entry(o);
                            let j2 = self.index_of(q);
                            let o2: int = if j2 < i { j2 } else { j2 + 1 };
                            assert(self.entries@[j2] == prev[o2]);
                            old(self).lemma_entry(o2);
                        };
                        assert forall|q: Seq<char>|
                            old(self)@.remove(k@).contains_key(q) implies self@.contains_key(
                            q,
                        ) by {
                            let o = choose|o: int| 0 <= o < prev.len() && prev[o].0@ == q;
                            assert(o != i);
                            let j: int = if o < i { o } else { o - 1 };
                            assert(self.entries@[j] == prev[o]);
                        };
                    };
                }
                Some(d)
            },
            None => {
                proof {
                    assert(self@ =~= old(self)@.remove(k@));
                }
                None
            },
        }
    }

    pub fn insert(&mut self, k: String, d: Demand)
        requires
            old(self).wf(),
            d.wf(),
        ensures
            final(self).wf(),
            final(self)@ == old(self)@.insert(k@, d@),
    {
        let _prior = self.remove(&k);
        let ghost midself = *self;
        let ghost dv = d@;
        self.entries.push((k, d));
        proof {
            let n = midself.entries@.len() as int;
            let kk = self.entries@[n].0@;
            let mid = midself@;
            assert(mid == old(self)@.remove(kk));
            assert(!mid.contains_key(kk));
            assert forall|j1: int, j2: int|
                0 <= j1 < j2 < self.entries@.len() implies self.entries@[j1].0@
                != self.entries@[j2].0@ by {
                if j2 == n {
                    if self.entries@[j1].0@ == kk {
                        assert(midself.entries@[j1].0@ == kk);
                        assert(mid.contains_key(kk));
                        assert(false);
                    }
                } else {
                    assert(midself.entries@[j1].0@ != midself.entries@[j2].0@);
                }
            };
            assert forall|j: int| 0 <= j < self.entries@.len() implies (
            #[trigger] self.entries@[j].1).wf() by {
                if j < n {
                    assert(midself.entries@[j].1.wf());
                }
            };
            assert(self@ =~= mid.insert(kk, dv)) by {
                assert forall|q: Seq<char>| #[trigger] self@.contains_key(q) implies mid.insert(
                    kk,
                    dv,
                ).contains_key(q) && self@[q] == mid.insert(kk, dv)[q] by {
                    let j = self.index_of(q);
                    assert(0 <= j < self.entries@.len() && self.entries@[j].0@ == q);
                    if q == kk {
                        if j != n {
                            assert(self.entries@[j].0@ != self.entries@[n].0@);
                            assert(false);
                        }
                        assert(self@[q] == dv);
                    } else {
                        assert(j < n);
                        assert(midself.entries@[j].0@ == q);
                        midself.lemma_entry(j);
                        assert(self@[q] == self.entries@[j].1@);
                        assert(mid[q] == midself.entries@[j].1@);
                    }
                };
                assert forall|q: Seq<char>| mid.insert(kk, dv).contains_key(q)
                    implies self@.contains_key(q) by {
                    if q == kk {
                        assert(self.entries@[n].0@ == q);
                    } else {
                        let j = choose|j: int|
                            0 <= j < midself.entries@.len() && midself.entries@[j].0@ == q;
                        assert(self.entries@[j].0@ == q);
                    }
                };
            };
            assert(mid.insert(kk, dv) =~= old(self)@.insert(kk, dv));
        }
    }

    pub fn is_empty(&self) -> (b: bool)
        ensures
            b <==> self@.dom() == Set::<Seq<char>>::empty(),
    {
        let e = self.entries.is_empty();
        proof {
            if e {
                assert(self@.dom() =~= Set::<Seq<char>>::empty());
            } else {
                assert(self@.contains_key(self.entries@[0].0@));
                assert(self@.dom().contains(self.entries@[0].0@));
                if self@.dom() == Set::<Seq<char>>::empty() {
                    assert(false);
                }
            }
        }
        e
    }

    pub fn entry_len(&self) -> (n: usize)
        ensures
            n == self.key_seq().len(),
    {
        self.entries.len()
    }

    pub fn at(&self, i: usize) -> (p: &(String, Demand))
        requires
            self.wf(),
            i < self.key_seq().len(),
        ensures
            p.0@ == self.key_seq()[i as int],
            p.1@ == self@[p.0@],
            p.1.wf(),
            self@.contains_key(p.0@),
    {
        proof {
            self.lemma_entry(i as int);
        }
        &self.entries[i]
    }

    /// The key set as fresh strings.
    pub fn names(&self) -> (r: Vec<String>)
        requires
            self.wf(),
        ensures
            r@.len() == self.key_seq().len(),
            forall|i: int| 0 <= i < r@.len() ==> r@[i]@ == self.key_seq()[i],
            forall|i: int| 0 <= i < r@.len() ==> self@.contains_key(r@[i]@),
    {
        let n = self.entries.len();
        let mut r: Vec<String> = Vec::new();
        let mut i: usize = 0;
        while i < n
            invariant
                self.wf(),
                n == self.entries@.len(),
                i <= n,
                r@.len() == i,
                forall|j: int| 0 <= j < i ==> r@[j]@ == self.key_seq()[j],
            decreases n - i,
        {
            r.push(self.entries[i].0.clone());
            i += 1;
        }
        proof {
            assert forall|j: int| 0 <= j < r@.len() implies self@.contains_key(r@[j]@) by {
                self.lemma_entry(j);
                assert(self.key_seq()[j] == self.entries@[j].0@);
                assert(r@[j]@ == self.entries@[j].0@);
            };
        }
        r
    }
}

} // verus!
