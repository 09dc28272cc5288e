//! The per-package fetch/result cache: once a name enters this map it never
//! leaves, and its entry transitions in-flight to fetched exactly once.

use vstd::prelude::*;
use vstd::pervasive::VecAdditionalExecFns;
use crate::records::{Crate, CrateView, records_view};

verus! {

/// The fetch state of one package name.
pub enum CacheEntry {
    /// A fetch was dispatched and has not completed.
    InFlight,
    /// The fetched, immutable version-record list.
    Fetched(Vec<Crate>),
}

/// Ghost image of a [`CacheEntry`].
pub enum CacheView {
    InFlight,
    Fetched(Seq<CrateView>),
}

impl View for CacheEntry {
    type V = CacheView;

    open spec fn view(&self) -> CacheView {
        match self {
            CacheEntry::InFlight => CacheView::InFlight,
            CacheEntry::Fetched(v) => CacheView::Fetched(records_view(v@)),
        }
    }
}

pub struct CacheMap {
    entries: Vec<(String, CacheEntry)>,
}

impl View for CacheMap {
    type V = Map<Seq<char>, CacheView>;

    closed spec fn view(&self) -> Map<Seq<char>, CacheView> {
        Map::new(
            |k: Seq<char>|
                exists|i: int| 0 <= i < self.entries@.len() && self.entries@[i].0@ == k,
            |k: Seq<char>| self.entries@[self.index_of(k)].1@,
        )
    }
}

impl CacheMap {
    spec fn index_of(&self, k: Seq<char>) -> int {
        choose|i: int| 0 <= i < self.entries@.len() && self.entries@[i].0@ == k
    }

    pub closed spec fn wf(&self) -> bool {
        forall|i: int, j: int|
            0 <= i < j < self.entries@.len() ==> self.entries@[i].0@ != self.entries@[j].0@
    }

    proof fn lemma_entry(&self, i: int)
        requires
            self.wf(),
            0 <= i < self.entries@.len(),
        ensures
            self@.contains_key(self.entries@[i].0@),
            self@[self.entries@[i].0@] == self.entries@[i].1@,
    {
        let k = self.entries@[i].0@;
        let j = self.index_of(k);
        assert(0 <= j < self.entries@.len() && self.entries@[j].0@ == k);
        if i != j {
            assert(false);
        }
    }

    pub fn new() -> (m: CacheMap)
        ensures
            m.wf(),
            m@ == Map::<Seq<char>, CacheView>::empty(),
    {
        let m = CacheMap { entries: Vec::new() };
        proof {
            assert(m@ =~= Map::<Seq<char>, CacheView>::empty());
        }
        m
    }

    fn position(&self, k: &String) -> (r: Option<usize>)
        ensures
            match r {
                Some(i) => i < self.entries@.len() && self.entries@[i as int].0@ == k@
                    && self@.contains_key(k@),
                None => !self@.contains_key(k@),
            },
    {
        let n = self.entries.len();
        let mut i: usize = 0;
        while i < n
            invariant
                n == self.entries@.len(),
                i <= n,
                forall|j: int| 0 <= j < i ==> self.entries@[j].0@ != k@,
            decreases n - i,
        {
            if self.entries[i].0.eq(k) {
                proof {
                    assert(self.entries@[i as int].0@ == k@);
                }
                return Some(i);
            }
            i += 1;
        }
        proof {
            if self@.contains_key(k@) {
                let j = choose|j: int|
                    0 <= j < self.entries@.len() && self.entries@[j].0@ == k@;
                assert(false);
            }
        }
        None
    }

    pub fn contains_name(&self, k: &String) -> (b: bool)
        ensures
            b == self@.contains_key(k@),
    {
        self.position(k).is_some()
    }

    /// Whether a fetch for the name was dispatched and has not completed.
    pub fn is_in_flight(&self, k: &String) -> (b: bool)
        requires
            self.wf(),
        ensures
            b == (self@.contains_key(k@) && self@[k@] is InFlight),
    {
        match self.position(k) {
            Some(i) => {
                proof {
                    self.lemma_entry(i as int);
                }
                match &self.entries[i].1 {
                    CacheEntry::InFlight => true,
                    CacheEntry::Fetched(_) => false,
                }
            },
            None => false,
        }
    }

    /// The fetched records of the name, if its fetch has completed.
    pub fn get_records(&self, k: &String) -> (r: Option<&Vec<Crate>>)
        requires
            self.wf(),
        ensures
            match r {
                Some(v) => self@.contains_key(k@) && self@[k@] == CacheView::Fetched(
                    records_view(v@),
                ),
                None => !self@.contains_key(k@) || self@[k@] is InFlight,
            },
    {
        match self.position(k) {
            Some(i) => {
                proof {
                    self.lemma_entry(i as int);
                }
                match &self.entries[i].1 {
                    CacheEntry::InFlight => None,
                    CacheEntry::Fetched(v) => Some(v),
                }
            },
            None => None,
        }
    }

    /// Record a newly dispatched fetch.
    pub fn insert_in_flight(&mut self, k: String)
        requires
            old(self).wf(),
            !old(self)@.contains_key(k@),
        ensures
            final(self).wf(),
            final(self)@ == old(self)@.insert(k@, CacheView::InFlight),
    {
        self.entries.push((k, CacheEntry::InFlight));
        proof {
            let n = self.entries@.len() - 1;
            let kk = self.entries@[n].0@;
            assert forall|j1: int, j2: int|
                0 <= j1 < j2 < self.entries@.len() implies self.entries@[j1].0@
                != self.entries@[j2].0@ by {
                if j2 == n {
                    if self.entries@[j1].0@ == kk {
                        assert(old(self).entries@[j1].0@ == kk);
                        assert(old(self)@.contains_key(kk));
                        assert(false);
                    }
                } else {
                    assert(old(self).entries@[j1].0@ != old(self).entries@[j2].0@);
                }
            };
            assert(self@ =~= old(self)@.insert(kk, CacheView::InFlight)) by {
                assert forall|q: Seq<char>| #[trigger] self@.contains_key(q) implies old(
                    self,
                )@.insert(kk, CacheView::InFlight).contains_key(q) && self@[q] == old(
                    self,
                )@.insert(kk, CacheView::InFlight)[q] by {
                    let j = self.index_of(q);
                    assert(0 <= j < self.entries@.len() && self.entries@[j].0@ == q);
                    if q == kk {
                        if j != n {
                            assert(self.entries@[j].0@ != self.entries@[n].0@);
                            assert(false);
                        }
                    } else {
                        assert(j < n);
                        assert(old(self).entries@[j].0@ == q);
                        old(self).lemma_entry(j);
                        assert(self@[q] == self.entries@[j].1@);
                    }
                };
                assert forall|q: Seq<char>|
                    old(self)@.insert(kk, CacheView::InFlight).contains_key(q)
                        implies self@.contains_key(q) by {
                    if q == kk {
                        assert(self.entries@[n].0@ == q);
                    } else {
                        let j = choose|j: int|
                            0 <= j < old(self).entries@.len() && old(self).entries@[j].0@ == q;
                        assert(self.entries@[j].0@ == q);
                    }
                };
            };
        }
    }

    /// Move a name from in-flight to fetched, storing its records.
    pub fn set_fetched(&mut self, k: &String, recs: Vec<Crate>)
        requires
            old(self).wf(),
            old(self)@.contains_key(k@),
        ensures
            final(self).wf(),
            final(self)@ == old(self)@.insert(k@, CacheView::Fetched(records_view(recs@))),
    {
        let ghost rv = records_view(recs@);
        match self.position(k) {
            Some(i) => {
                let ghost prev = self.entries@;
                let kcopy = k.clone();
                self.entries.set(i, (kcopy, CacheEntry::Fetched(recs)));
                proof {
                    assert(self.entries@ == prev.update(i as int, self.entries@[i as int]));
                    assert(self.entries@[i as int].0@ == k@);
                    assert forall|j1: int, j2: int|
                        0 <= j1 < j2 < self.entries@.len() implies self.entries@[j1].0@
                        != self.entries@[j2].0@ by {
                        assert(prev[j1].0@ != prev[j2].0@);
                        if j1 == i {
                            assert(prev[j1].0@ == k@);
                        }
                        if j2 == i {
                            assert(prev[j2].0@ == k@);
                        }
                    };
                    assert(self@ =~= old(self)@.insert(k@, CacheView::Fetched(rv))) by {
                        assert forall|q: Seq<char>| #[trigger] self@.contains_key(q)
                            implies old(self)@.insert(k@, CacheView::Fetched(rv)).contains_key(
                            q,
                        ) && self@[q] == old(self)@.insert(k@, CacheView::Fetched(rv))[q] by {
                            let j = self.index_of(q);
                            assert(0 <= j < self.entries@.len() && self.entries@[j].0@ == q);
                            if q == k@ {
                                if j != i {
                                    assert(self.entries@[j].0@ == prev[j].0@);
                                    assert(prev[j].0@ != prev[i as int].0@);
                                    assert(false);
                                }
                            } else {
                                assert(j != i);
                                assert(self.entries@[j] == prev[j]);
                                old(self).lemma_entry(j);
                                assert(self@[q] == self.entries@[j].1@);
                            }
                        };
                        assert forall|q: Seq<char>|
                            old(self)@.insert(k@, CacheView::Fetched(rv)).contains_key(q)
                                implies self@.contains_key(q) by {
                            if q == k@ {
                                assert(self.entries@[i as int].0@ == q);
                            } else {
                                let j = choose|j: int|
                                    0 <= j < prev.len() && prev[j].0@ == q;
                                assert(j != i);
                                assert(self.entries@[j].0@ == q);
                            }
                        };
                    };
                }
            },
            None => {
                proof {
                    assert(false);
                }
            },
        }
    }
}

} // verus!
