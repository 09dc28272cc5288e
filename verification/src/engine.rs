//! The exploration engine: owns the per-package fetch/result cache, the
//! done/pending demand maps and the queue of derivation passes that are
//! ready to run, and decides when a package's dependency set must be
//! (re)computed.
//!
//! The engine performs no I/O. `enqueue` either runs a derivation pass at
//! once (records already cached), merges into pending demand (fetch in
//! flight), or records a fetch request (unseen name) that the caller
//! dispatches; the caller feeds completed fetches back through
//! `on_fetch_result` and drains queued passes with `process_ready` until no
//! demand is pending.

use vstd::prelude::*;
use crate::demand::{Demand, DemandView, merge_views, merge_changed};
use crate::records::{Crate, records_view};
use crate::demand_map::DemandMap;
use crate::cache_map::{CacheMap, CacheView};
use crate::derivation::{derive_demands, derive_map, derive_error};
use crate::error::{ExploreError, is_derivation_error};

verus! {

/// Ghost image of the engine's state.
#[verifier::ext_equal]
pub struct ExplorationView {
    /// Fetch state per package name; a name never leaves this map.
    pub crates: Map<Seq<char>, CacheView>,
    /// Demand already submitted for processing, per package name.
    pub done: Map<Seq<char>, DemandView>,
    /// Demand accumulated while a fetch is outstanding.
    pub todo: Map<Seq<char>, DemandView>,
    /// Delta demands whose records are cached, awaiting a derivation pass.
    pub ready: Seq<(Seq<char>, DemandView)>,
    /// Names whose fetch the caller has yet to dispatch.
    pub to_fetch: Seq<Seq<char>>,
}

/// `a` extends `b`: both of `b`'s sets are contained in `a`'s.
pub open spec fn demand_extends(a: DemandView, b: DemandView) -> bool {
    b.features.subset_of(a.features) && b.reqs.subset_of(a.reqs)
}

/// What every engine step preserves: `done` entries only grow and never
/// leave; cached names never leave and fetched records never change; the
/// fetch queue only gains names, each previously unseen and now cached.
pub open spec fn grows(pre: ExplorationView, post: ExplorationView) -> bool {
    &&& forall|k: Seq<char>| #[trigger] pre.done.contains_key(k) ==> post.done.contains_key(k)
        && demand_extends(post.done[k], pre.done[k])
    &&& forall|k: Seq<char>| #[trigger] pre.crates.contains_key(k) ==> post.crates.contains_key(
        k,
    ) && (pre.crates[k] is Fetched ==> post.crates[k] == pre.crates[k])
    &&& post.to_fetch.len() >= pre.to_fetch.len()
    &&& post.to_fetch.take(pre.to_fetch.len() as int) == pre.to_fetch
    &&& forall|i: int|
        pre.to_fetch.len() <= i < post.to_fetch.len() ==> !pre.crates.contains_key(
            #[trigger] post.to_fetch[i],
        ) && post.crates.contains_key(post.to_fetch[i])
}

/// Merge `w` into the map's entry for `k`, inserting if absent.
pub open spec fn upsert_demand(
    m: Map<Seq<char>, DemandView>,
    k: Seq<char>,
    w: DemandView,
) -> Map<Seq<char>, DemandView> {
    m.insert(
        k,
        if m.contains_key(k) {
            merge_views(m[k], w)
        } else {
            w
        },
    )
}

/// A request whose demand is already contained in what was submitted for
/// the name: the engine does nothing for it.
pub open spec fn is_noop(s: ExplorationView, k: Seq<char>, w: DemandView) -> bool {
    s.done.contains_key(k) && !merge_changed(s.done[k], w)
}

/// The delta a cached name is processed with: pending demand merged with
/// the incoming request, or the request alone.
pub open spec fn pending_delta(s: ExplorationView, k: Seq<char>, w: DemandView) -> DemandView {
    if s.todo.contains_key(k) {
        merge_views(s.todo[k], w)
    } else {
        w
    }
}

/// A name whose fetch has completed.
pub open spec fn is_fetched(c: Map<Seq<char>, CacheView>, k: Seq<char>) -> bool {
    c.contains_key(k) && c[k] is Fetched
}

/// Whether submitting `w` for `k` against the accumulated map `d0` changes
/// nothing.
pub open spec fn pass_noop(d0: Map<Seq<char>, DemandView>, k: Seq<char>, w: DemandView) -> bool {
    d0.contains_key(k) && !merge_changed(d0[k], w)
}

/// The done map after one derivation pass submits every entry of `dm`:
/// exactly the derived keys are added or merged, nothing else changes.
pub open spec fn done_after_pass(
    d0: Map<Seq<char>, DemandView>,
    dm: Map<Seq<char>, DemandView>,
) -> Map<Seq<char>, DemandView> {
    Map::new(
        |k: Seq<char>| d0.contains_key(k) || dm.contains_key(k),
        |k: Seq<char>|
            if dm.contains_key(k) {
                if d0.contains_key(k) {
                    merge_views(d0[k], dm[k])
                } else {
                    dm[k]
                }
            } else {
                d0[k]
            },
    )
}

/// The cache after one pass: exactly the previously unseen derived names
/// are added, as in-flight; every other entry is unchanged.
pub open spec fn crates_after_pass(
    c0: Map<Seq<char>, CacheView>,
    dm: Map<Seq<char>, DemandView>,
) -> Map<Seq<char>, CacheView> {
    Map::new(
        |k: Seq<char>| c0.contains_key(k) || dm.contains_key(k),
        |k: Seq<char>|
            if c0.contains_key(k) {
                c0[k]
            } else {
                CacheView::InFlight
            },
    )
}

/// The pending map after one pass: exactly the derived names that are not
/// fetched and whose submission is not a no-op have the derived demand
/// merged in; every other entry is unchanged.
pub open spec fn todo_after_pass(
    t0: Map<Seq<char>, DemandView>,
    d0: Map<Seq<char>, DemandView>,
    c0: Map<Seq<char>, CacheView>,
    dm: Map<Seq<char>, DemandView>,
) -> Map<Seq<char>, DemandView> {
    Map::new(
        |k: Seq<char>|
            t0.contains_key(k) || (dm.contains_key(k) && !pass_noop(d0, k, dm[k])
                && !is_fetched(c0, k)),
        |k: Seq<char>|
            if dm.contains_key(k) && !pass_noop(d0, k, dm[k]) && !is_fetched(c0, k) {
                if t0.contains_key(k) {
                    merge_views(t0[k], dm[k])
                } else {
                    dm[k]
                }
            } else {
                t0[k]
            },
    )
}

/// What one pass appends, exactly and up to order: one queued derivation
/// job per fetched, non-no-op derived name, carrying exactly the derived
/// demand; one fetch request per previously unseen derived name, and no
/// other addition to either queue.
pub open spec fn pass_appends(
    pre: ExplorationView,
    post: ExplorationView,
    dm: Map<Seq<char>, DemandView>,
) -> bool {
    &&& post.ready.len() >= pre.ready.len()
    &&& post.ready.take(pre.ready.len() as int) == pre.ready
    &&& forall|i: int|
        pre.ready.len() <= i < post.ready.len() ==> dm.contains_key(
            (#[trigger] post.ready[i]).0,
        ) && is_fetched(pre.crates, post.ready[i].0) && !pass_noop(
            pre.done,
            post.ready[i].0,
            dm[post.ready[i].0],
        ) && post.ready[i].1 == dm[post.ready[i].0]
    &&& forall|i: int, j: int|
        pre.ready.len() <= i < j < post.ready.len() ==> (#[trigger] post.ready[i]).0 != (
        #[trigger] post.ready[j]).0
    &&& forall|k: Seq<char>|
        #[trigger] dm.contains_key(k) && is_fetched(pre.crates, k) && !pass_noop(
            pre.done,
            k,
            dm[k],
        ) ==> exists|i: int|
            pre.ready.len() <= i < post.ready.len() && (#[trigger] post.ready[i]).0 == k
    &&& forall|i: int|
        pre.to_fetch.len() <= i < post.to_fetch.len() ==> dm.contains_key(
            #[trigger] post.to_fetch[i],
        )
    &&& forall|k: Seq<char>|
        #[trigger] dm.contains_key(k) && !pre.crates.contains_key(k) ==> exists|i: int|
            pre.to_fetch.len() <= i < post.to_fetch.len() && post.to_fetch[i] == k
}

/// Merging a contained demand is the identity on the merged entry.
proof fn lemma_merge_noop(a: DemandView, w: DemandView)
    requires
        !merge_changed(a, w),
    ensures
        merge_views(a, w) == a,
{
    assert(a.features + w.features =~= a.features);
    assert(a.reqs + w.reqs =~= a.reqs);
    assert(merge_views(a, w) =~= a);
}

/// The first `n` of `keys` contain `k`.
spec fn seen(keys: Seq<Seq<char>>, n: int, k: Seq<char>) -> bool {
    exists|j: int| 0 <= j < n && keys[j] == k
}

spec fn done_mid(
    d0: Map<Seq<char>, DemandView>,
    dm: Map<Seq<char>, DemandView>,
    keys: Seq<Seq<char>>,
    n: int,
) -> Map<Seq<char>, DemandView> {
    Map::new(
        |k: Seq<char>| d0.contains_key(k) || (dm.contains_key(k) && seen(keys, n, k)),
        |k: Seq<char>|
            if dm.contains_key(k) && seen(keys, n, k) {
                if d0.contains_key(k) {
                    merge_views(d0[k], dm[k])
                } else {
                    dm[k]
                }
            } else {
                d0[k]
            },
    )
}

spec fn todo_mid(
    t0: Map<Seq<char>, DemandView>,
    d0: Map<Seq<char>, DemandView>,
    c0: Map<Seq<char>, CacheView>,
    dm: Map<Seq<char>, DemandView>,
    keys: Seq<Seq<char>>,
    n: int,
) -> Map<Seq<char>, DemandView> {
    Map::new(
        |k: Seq<char>|
            t0.contains_key(k) || (dm.contains_key(k) && seen(keys, n, k) && !pass_noop(
                d0,
                k,
                dm[k],
            ) && !is_fetched(c0, k)),
        |k: Seq<char>|
            if dm.contains_key(k) && seen(keys, n, k) && !pass_noop(d0, k, dm[k])
                && !is_fetched(c0, k) {
                if t0.contains_key(k) {
                    merge_views(t0[k], dm[k])
                } else {
                    dm[k]
                }
            } else {
                t0[k]
            },
    )
}

spec fn crates_mid(
    c0: Map<Seq<char>, CacheView>,
    dm: Map<Seq<char>, DemandView>,
    keys: Seq<Seq<char>>,
    n: int,
) -> Map<Seq<char>, CacheView> {
    Map::new(
        |k: Seq<char>| c0.contains_key(k) || (dm.contains_key(k) && seen(keys, n, k)),
        |k: Seq<char>|
            if c0.contains_key(k) {
                c0[k]
            } else {
                CacheView::InFlight
            },
    )
}

proof fn lemma_upsert_noop(m: Map<Seq<char>, DemandView>, k: Seq<char>, w: DemandView)
    requires
        m.contains_key(k),
        !merge_changed(m[k], w),
    ensures
        upsert_demand(m, k, w) == m,
{
    lemma_merge_noop(m[k], w);
    assert(upsert_demand(m, k, w) =~= m);
}

proof fn lemma_seen_step(keys: Seq<Seq<char>>, i: int, q: Seq<char>)
    requires
        0 <= i < keys.len(),
        q != keys[i],
    ensures
        seen(keys, i + 1, q) == seen(keys, i, q),
{
    if seen(keys, i + 1, q) {
        let j = choose|j: int| 0 <= j < i + 1 && keys[j] == q;
        assert(j < i);
        assert(seen(keys, i, q));
    }
}

proof fn lemma_done_mid_step(
    d0: Map<Seq<char>, DemandView>,
    dm: Map<Seq<char>, DemandView>,
    keys: Seq<Seq<char>>,
    i: int,
)
    requires
        0 <= i < keys.len(),
        dm.contains_key(keys[i]),
        !seen(keys, i, keys[i]),
    ensures
        done_mid(d0, dm, keys, i + 1) == upsert_demand(
            done_mid(d0, dm, keys, i),
            keys[i],
            dm[keys[i]],
        ),
{
    let kk = keys[i];
    let a = done_mid(d0, dm, keys, i + 1);
    let b = upsert_demand(done_mid(d0, dm, keys, i), kk, dm[kk]);
    assert(seen(keys, i + 1, kk));
    assert forall|q: Seq<char>| #[trigger] a.contains_key(q) || b.contains_key(q)
        implies a.contains_key(q) && b.contains_key(q) && a[q] == b[q] by {
        if q != kk {
            lemma_seen_step(keys, i, q);
        }
    };
    assert(a =~= b);
}

proof fn lemma_todo_mid_step(
    t0: Map<Seq<char>, DemandView>,
    d0: Map<Seq<char>, DemandView>,
    c0: Map<Seq<char>, CacheView>,
    dm: Map<Seq<char>, DemandView>,
    keys: Seq<Seq<char>>,
    i: int,
)
    requires
        0 <= i < keys.len(),
        dm.contains_key(keys[i]),
        !seen(keys, i, keys[i]),
    ensures
        (!pass_noop(d0, keys[i], dm[keys[i]]) && !is_fetched(c0, keys[i])) ==> todo_mid(
            t0,
            d0,
            c0,
            dm,
            keys,
            i + 1,
        ) == upsert_demand(todo_mid(t0, d0, c0, dm, keys, i), keys[i], dm[keys[i]]),
        (pass_noop(d0, keys[i], dm[keys[i]]) || is_fetched(c0, keys[i])) ==> todo_mid(
            t0,
            d0,
            c0,
            dm,
            keys,
            i + 1,
        ) == todo_mid(t0, d0, c0, dm, keys, i),
{
    let kk = keys[i];
    assert(seen(keys, i + 1, kk));
    if !pass_noop(d0, kk, dm[kk]) && !is_fetched(c0, kk) {
        let a = todo_mid(t0, d0, c0, dm, keys, i + 1);
        let b = upsert_demand(todo_mid(t0, d0, c0, dm, keys, i), kk, dm[kk]);
        assert forall|q: Seq<char>| #[trigger] a.contains_key(q) || b.contains_key(q)
            implies a.contains_key(q) && b.contains_key(q) && a[q] == b[q] by {
            if q != kk {
                lemma_seen_step(keys, i, q);
            }
        };
        assert(a =~= b);
    } else {
        let a = todo_mid(t0, d0, c0, dm, keys, i + 1);
        let b = todo_mid(t0, d0, c0, dm, keys, i);
        assert forall|q: Seq<char>| #[trigger] a.contains_key(q) || b.contains_key(q)
            implies a.contains_key(q) && b.contains_key(q) && a[q] == b[q] by {
            if q != kk {
                lemma_seen_step(keys, i, q);
            }
        };
        assert(a =~= b);
    }
}

proof fn lemma_crates_mid_step(
    c0: Map<Seq<char>, CacheView>,
    dm: Map<Seq<char>, DemandView>,
    keys: Seq<Seq<char>>,
    i: int,
)
    requires
        0 <= i < keys.len(),
        dm.contains_key(keys[i]),
        !seen(keys, i, keys[i]),
    ensures
        c0.contains_key(keys[i]) ==> crates_mid(c0, dm, keys, i + 1) == crates_mid(
            c0,
            dm,
            keys,
            i,
        ),
        !c0.contains_key(keys[i]) ==> crates_mid(c0, dm, keys, i + 1) == crates_mid(
            c0,
            dm,
            keys,
            i,
        ).insert(keys[i], CacheView::InFlight),
{
    let kk = keys[i];
    assert(seen(keys, i + 1, kk));
    if c0.contains_key(kk) {
        let a = crates_mid(c0, dm, keys, i + 1);
        let b = crates_mid(c0, dm, keys, i);
        assert forall|q: Seq<char>| #[trigger] a.contains_key(q) || b.contains_key(q)
            implies a.contains_key(q) && b.contains_key(q) && a[q] == b[q] by {
            if q != kk {
                lemma_seen_step(keys, i, q);
            }
        };
        assert(a =~= b);
    } else {
        let a = crates_mid(c0, dm, keys, i + 1);
        let b = crates_mid(c0, dm, keys, i).insert(kk, CacheView::InFlight);
        assert forall|q: Seq<char>| #[trigger] a.contains_key(q) || b.contains_key(q)
            implies a.contains_key(q) && b.contains_key(q) && a[q] == b[q] by {
            if q != kk {
                lemma_seen_step(keys, i, q);
            }
        };
        assert(a =~= b);
    }
}

/// `grows` composes.
pub proof fn lemma_grows_trans(a: ExplorationView, b: ExplorationView, c: ExplorationView)
    requires
        grows(a, b),
        grows(b, c),
    ensures
        grows(a, c),
{
    assert(c.to_fetch.take(a.to_fetch.len() as int) =~= b.to_fetch.take(
        a.to_fetch.len() as int,
    ));
    assert forall|i: int|
        a.to_fetch.len() <= i < c.to_fetch.len() implies !a.crates.contains_key(
        #[trigger] c.to_fetch[i],
    ) && c.crates.contains_key(c.to_fetch[i]) by {
        if i < b.to_fetch.len() {
            assert(b.to_fetch.take(a.to_fetch.len() as int) == a.to_fetch);
            assert(c.to_fetch.take(b.to_fetch.len() as int)[i] == c.to_fetch[i]);
            assert(b.to_fetch[i] == c.to_fetch[i]);
            if a.crates.contains_key(c.to_fetch[i]) {
                assert(b.crates.contains_key(c.to_fetch[i]));
                assert(false);
            }
        } else {
            if a.crates.contains_key(c.to_fetch[i]) {
                assert(b.crates.contains_key(c.to_fetch[i]));
                assert(false);
            }
        }
    };
    assert forall|k: Seq<char>| #[trigger] a.done.contains_key(k) implies c.done.contains_key(k)
        && demand_extends(c.done[k], a.done[k]) by {
        assert(b.done.contains_key(k));
    };
}

/// The exploration coordinator.
pub struct Exploration {
    crates: CacheMap,
    done: DemandMap,
    todo: DemandMap,
    ready: Vec<(String, Demand)>,
    to_fetch: Vec<String>,
}

impl View for Exploration {
    type V = ExplorationView;

    closed spec fn view(&self) -> ExplorationView {
        ExplorationView {
            crates: self.crates@,
            done: self.done@,
            todo: self.todo@,
            ready: Seq::new(self.ready@.len(), |i: int| (self.ready@[i].0@, self.ready@[i].1@)),
            to_fetch: Seq::new(self.to_fetch@.len(), |i: int| self.to_fetch@[i]@),
        }
    }
}

impl Exploration {
    pub closed spec fn wf(&self) -> bool {
        &&& self.crates.wf()
        &&& self.done.wf()
        &&& self.todo.wf()
        &&& forall|i: int|
            0 <= i < self.ready@.len() ==> (#[trigger] self.ready@[i].1).wf()
                && self.crates@.contains_key(self.ready@[i].0@)
                && self.crates@[self.ready@[i].0@] is Fetched
        &&& forall|i: int|
            0 <= i < self.to_fetch@.len() ==> self.crates@.contains_key(
                #[trigger] self.to_fetch@[i]@,
            )
        &&& forall|i: int, j: int|
            0 <= i < j < self.to_fetch@.len() ==> self.to_fetch@[i]@ != self.to_fetch@[j]@
        &&& forall|k: Seq<char>| #[trigger]
            self.todo@.contains_key(k) ==> self.crates@.contains_key(k) && self.crates@[k]
                is InFlight
        &&& forall|k: Seq<char>| #[trigger]
            self.done@.contains_key(k) ==> self.crates@.contains_key(k)
    }

    /// An engine with nothing fetched, done, pending or queued.
    pub fn new() -> (e: Exploration)
        ensures
            e.wf(),
            e@.crates == Map::<Seq<char>, CacheView>::empty(),
            e@.done == Map::<Seq<char>, DemandView>::empty(),
            e@.todo == Map::<Seq<char>, DemandView>::empty(),
            e@.ready == Seq::<(Seq<char>, DemandView)>::empty(),
            e@.to_fetch == Seq::<Seq<char>>::empty(),
    {
        let e = Exploration {
            crates: CacheMap::new(),
            done: DemandMap::new(),
            todo: DemandMap::new(),
            ready: Vec::new(),
            to_fetch: Vec::new(),
        };
        proof {
            assert(e@.ready =~= Seq::<(Seq<char>, DemandView)>::empty());
            assert(e@.to_fetch =~= Seq::<Seq<char>>::empty());
        }
        e
    }

    fn upsert_todo(&mut self, name: String, wants: Demand)
        requires
            old(self).wf(),
            wants.wf(),
            old(self)@.crates.contains_key(name@),
            old(self)@.crates[name@] is InFlight,
        ensures
            final(self).wf(),
            final(self)@.todo == upsert_demand(old(self)@.todo, name@, wants@),
            final(self)@.crates == old(self)@.crates,
            final(self)@.done == old(self)@.done,
            final(self)@.ready == old(self)@.ready,
            final(self)@.to_fetch == old(self)@.to_fetch,
    {
        let ghost k = name@;
        match self.todo.remove(&name) {
            Some(mut prior) => {
                prior.merge(&wants);
                self.todo.insert(name, prior);
                proof {
                    assert(self@.todo =~= upsert_demand(old(self)@.todo, k, wants@));
                }
            },
            None => {
                self.todo.insert(name, wants);
                proof {
                    assert(old(self)@.todo.remove(k) =~= old(self)@.todo);
                    assert(self@.todo =~= upsert_demand(old(self)@.todo, k, wants@));
                }
            },
        }
    }

    /// Record the request in `done` and decide what follows: a no-op if the
    /// accumulated demand already contains it; otherwise a derivation job
    /// (records cached), pending demand (fetch in flight), or a fresh fetch
    /// request plus pending demand (unseen name).
    fn submit(&mut self, name: String, wants: Demand) -> (r: Option<(String, Demand)>)
        requires
            old(self).wf(),
            wants.wf(),
        ensures
            final(self).wf(),
            grows(old(self)@, final(self)@),
            final(self)@.done.contains_key(name@),
            demand_extends(final(self)@.done[name@], wants@),
            final(self)@.ready == old(self)@.ready,
            is_noop(old(self)@, name@, wants@) ==> final(self)@ == old(self)@ && r is None,
            !is_noop(old(self)@, name@, wants@) ==> final(self)@.done == upsert_demand(
                old(self)@.done,
                name@,
                wants@,
            ),
            (!is_noop(old(self)@, name@, wants@) && old(self)@.crates.contains_key(name@)
                && old(self)@.crates[name@] is Fetched) ==> (r matches Some(p) && p.0@ == name@
                && p.1.wf() && p.1@ == pending_delta(old(self)@, name@, wants@)
                && final(self)@.todo == old(self)@.todo.remove(name@) && final(self)@.crates
                == old(self)@.crates && final(self)@.to_fetch == old(self)@.to_fetch),
            (!is_noop(old(self)@, name@, wants@) && old(self)@.crates.contains_key(name@)
                && old(self)@.crates[name@] is InFlight) ==> (r is None && final(self)@.crates
                == old(self)@.crates && final(self)@.to_fetch == old(self)@.to_fetch
                && final(self)@.todo == upsert_demand(old(self)@.todo, name@, wants@)),
            (!is_noop(old(self)@, name@, wants@) && !old(self)@.crates.contains_key(name@))
                ==> (r is None && final(self)@.crates == old(self)@.crates.insert(
                name@,
                CacheView::InFlight,
            ) && final(self)@.to_fetch == old(self)@.to_fetch.push(name@)
                && final(self)@.todo == upsert_demand(old(self)@.todo, name@, wants@)),
            r matches Some(p) ==> p.0@ == name@ && p.1.wf() && final(self)@.crates.contains_key(
                name@,
            ) && final(self)@.crates[name@] is Fetched,
    {
        let ghost k = name@;
        let changed: bool;
        match self.done.remove(&name) {
            Some(mut f) => {
                let c = f.merge(&wants);
                self.done.insert(name.clone(), f);
                changed = c;
                proof {
                    if c {
                        assert(self@.done =~= upsert_demand(old(self)@.done, k, wants@));
                    } else {
                        assert(self@.done =~= old(self)@.done);
                    }
                }
            },
            None => {
                self.done.insert(name.clone(), wants.duplicate());
                changed = true;
                proof {
                    assert(old(self)@.done.remove(k) =~= old(self)@.done);
                    assert(self@.done =~= upsert_demand(old(self)@.done, k, wants@));
                }
            },
        }
        proof {
            assert(self@.done.contains_key(k));
            assert(demand_extends(self@.done[k], wants@));
            assert(self@.crates == old(self)@.crates);
            assert(self@.todo == old(self)@.todo);
            assert(self@.ready =~= old(self)@.ready);
            assert(self@.to_fetch =~= old(self)@.to_fetch);
        }
        if !changed {
            proof {
                assert(self@ =~= old(self)@);
                assert(grows(old(self)@, self@)) by {
                    assert(self@.to_fetch.take(old(self)@.to_fetch.len() as int) =~= old(
                        self,
                    )@.to_fetch);
                };
            }
            return None;
        }
        let ghost mid = self@;
        proof {
            assert(grows(old(self)@, mid)) by {
                assert(mid.to_fetch.take(old(self)@.to_fetch.len() as int) =~= old(
                    self,
                )@.to_fetch);
                assert forall|q: Seq<char>| #[trigger] old(self)@.done.contains_key(q)
                    implies mid.done.contains_key(q) && demand_extends(
                    mid.done[q],
                    old(self)@.done[q],
                ) by {
                    if q != k {
                        assert(mid.done[q] == old(self)@.done[q]);
                    }
                };
            };
        }
        let r: Option<(String, Demand)>;
        if self.crates.contains_name(&name) {
            if self.crates.is_in_flight(&name) {
                self.upsert_todo(name, wants);
                r = None;
            } else {
                let delta: Demand = match self.todo.remove(&name) {
                    Some(mut p) => {
                        p.merge(&wants);
                        p
                    },
                    None => wants,
                };
                proof {
                    assert(delta@ == pending_delta(old(self)@, k, wants@));
                    assert(old(self)@.todo.remove(k) =~= old(self)@.todo || true);
                    if !old(self)@.todo.contains_key(k) {
                        assert(self@.todo =~= old(self)@.todo.remove(k));
                    }
                }
                r = Some((name, delta));
            }
        } else {
            self.crates.insert_in_flight(name.clone());
            self.to_fetch.push(name.clone());
            proof {
                assert forall|i: int|
                    0 <= i < self.to_fetch@.len() implies self.crates@.contains_key(
                    #[trigger] self.to_fetch@[i]@,
                ) by {
                    if i < old(self).to_fetch@.len() {
                        assert(self.to_fetch@[i] == old(self).to_fetch@[i]);
                        assert(old(self).crates@.contains_key(old(self).to_fetch@[i]@));
                    } else {
                        assert(self.to_fetch@[i]@ == k);
                    }
                };
                assert forall|i: int, j: int|
                    0 <= i < j < self.to_fetch@.len() implies self.to_fetch@[i]@
                    != self.to_fetch@[j]@ by {
                    if j < old(self).to_fetch@.len() {
                        assert(old(self).to_fetch@[i]@ != old(self).to_fetch@[j]@);
                    } else {
                        if self.to_fetch@[i]@ == k {
                            assert(old(self).crates@.contains_key(k));
                            assert(false);
                        }
                    }
                };
                assert forall|i: int|
                    0 <= i < self.ready@.len() implies (#[trigger] self.ready@[i].1).wf()
                    && self.crates@.contains_key(self.ready@[i].0@)
                    && self.crates@[self.ready@[i].0@] is Fetched by {
                    assert(old(self).ready@[i].1.wf());
                    assert(old(self).crates@.contains_key(old(self).ready@[i].0@));
                };
                assert(self.wf());
            }
            self.upsert_todo(name, wants);
            proof {
                assert(self@.to_fetch =~= mid.to_fetch.push(k));
            }
            r = None;
        }
        proof {
            assert(grows(mid, self@)) by {
                assert(self@.to_fetch.take(mid.to_fetch.len() as int) =~= mid.to_fetch);
                if !mid.crates.contains_key(k) {
                    assert forall|i: int|
                        mid.to_fetch.len() <= i < self@.to_fetch.len() implies !mid
                        .crates.contains_key(#[trigger] self@.to_fetch[i])
                        && self@.crates.contains_key(self@.to_fetch[i]) by {
                        assert(self@.to_fetch[i] == k);
                    };
                }
            };
            lemma_grows_trans(old(self)@, mid, self@);
            assert(self@.done == mid.done);
            assert(self@.ready =~= old(self)@.ready);
        }
        r
    }

    /// The engine's single entry point for requesting exploration of a
    /// package under some demand. A request already contained in the name's
    /// accumulated demand is a no-op; when the records are cached the delta
    /// is run through one derivation pass at once, whose own requests for
    /// cached dependencies are queued for `process_ready`; otherwise the
    /// demand waits with the name's fetch.
    pub fn enqueue(&mut self, name: String, wants: Demand) -> (r: Result<(), ExploreError>)
        requires
            old(self).wf(),
            wants.wf(),
        ensures
            final(self).wf(),
            grows(old(self)@, final(self)@),
            final(self)@.done.contains_key(name@),
            demand_extends(final(self)@.done[name@], wants@),
            is_noop(old(self)@, name@, wants@) ==> final(self)@ == old(self)@ && r is Ok,
            (!is_noop(old(self)@, name@, wants@) && !old(self)@.crates.contains_key(name@))
                ==> r is Ok && final(self)@.to_fetch == old(self)@.to_fetch.push(name@)
                && final(self)@.crates == old(self)@.crates.insert(name@, CacheView::InFlight)
                && final(self)@.todo == upsert_demand(old(self)@.todo, name@, wants@)
                && final(self)@.done == upsert_demand(old(self)@.done, name@, wants@)
                && final(self)@.ready == old(self)@.ready,
            (!is_noop(old(self)@, name@, wants@) && old(self)@.crates.contains_key(name@)
                && old(self)@.crates[name@] is InFlight) ==> r is Ok
                && final(self)@.to_fetch == old(self)@.to_fetch
                && final(self)@.crates == old(self)@.crates
                && final(self)@.todo == upsert_demand(old(self)@.todo, name@, wants@)
                && final(self)@.done == upsert_demand(old(self)@.done, name@, wants@)
                && final(self)@.ready == old(self)@.ready,
            (!is_noop(old(self)@, name@, wants@) && old(self)@.crates.contains_key(name@)
                && old(self)@.crates[name@] is Fetched) ==> !final(self)@.todo.contains_key(
                name@,
            ),
            old(self)@.crates[name@] matches CacheView::Fetched(rv) ==> ((!is_noop(
                old(self)@,
                name@,
                wants@,
            ) && old(self)@.crates.contains_key(name@)) ==> ((r is Ok <==> derive_error(
                pending_delta(old(self)@, name@, wants@),
                rv,
            ) is None) && (derive_error(pending_delta(old(self)@, name@, wants@), rv)
                matches Some(ev) ==> r matches Err(e) && e@ == ev) && (derive_error(
                pending_delta(old(self)@, name@, wants@),
                rv,
            ) is None ==> forall|q: Seq<char>|
                #[trigger] derive_map(pending_delta(old(self)@, name@, wants@), rv)
                    .contains_key(q) ==> final(self)@.done.contains_key(q) && demand_extends(
                    final(self)@.done[q],
                    derive_map(pending_delta(old(self)@, name@, wants@), rv)[q],
                )))),
            old(self)@.crates[name@] matches CacheView::Fetched(rv) ==> ((!is_noop(
                old(self)@,
                name@,
                wants@,
            ) && old(self)@.crates.contains_key(name@) && derive_error(
                pending_delta(old(self)@, name@, wants@),
                rv,
            ) is None) ==> (final(self)@.done == done_after_pass(
                upsert_demand(old(self)@.done, name@, wants@),
                derive_map(pending_delta(old(self)@, name@, wants@), rv),
            ) && final(self)@.todo == todo_after_pass(
                old(self)@.todo,
                upsert_demand(old(self)@.done, name@, wants@),
                old(self)@.crates,
                derive_map(pending_delta(old(self)@, name@, wants@), rv),
            ) && final(self)@.crates == crates_after_pass(
                old(self)@.crates,
                derive_map(pending_delta(old(self)@, name@, wants@), rv),
            ) && pass_appends(
                (ExplorationView { done: upsert_demand(old(self)@.done, name@, wants@), ..old(
                    self,
                )@ }),
                final(self)@,
                derive_map(pending_delta(old(self)@, name@, wants@), rv),
            ))),
            r matches Err(e) ==> is_derivation_error(e@),
    {
        let ghost pre = self@;
        let ghost k = name@;
        let ghost wv = wants@;
        match self.submit(name, wants) {
            Some(job) => {
                let (n, delta) = job;
                let recs = match self.crates.get_records(&n) {
                    Some(v) => crate::records::duplicate_records(v),
                    None => {
                        proof {
                            assert(false);
                        }
                        Vec::new()
                    },
                };
                let ghost mid = self@;
                proof {
                    assert(pre.crates[k] matches CacheView::Fetched(rv) ==> records_view(recs@)
                        == rv);
                    // the submitted state differs from the entry state only in
                    // `done`: the name is fetched, so it had no pending entry
                    assert(mid.todo =~= pre.todo) by {
                        assert(mid.todo == pre.todo.remove(k));
                        if pre.todo.contains_key(k) {
                            assert(pre.crates[k] is InFlight);
                            assert(false);
                        }
                    };
                    assert(mid =~= (ExplorationView {
                        done: upsert_demand(pre.done, k, wv),
                        ..pre
                    }));
                }
                let res = self.process(&delta, &recs);
                proof {
                    lemma_grows_trans(pre, mid, self@);
                    assert(self@.done.contains_key(k) && demand_extends(
                        self@.done[k],
                        wv,
                    )) by {
                        assert(mid.done.contains_key(k));
                        assert(demand_extends(mid.done[k], wv));
                    };
                    // the pending entry stays consumed: the name is fetched,
                    // and pending demand exists only for in-flight names
                    if self@.todo.contains_key(k) {
                        assert(self@.crates[k] is InFlight);
                        assert(mid.crates.contains_key(k) && mid.crates[k] is Fetched);
                        assert(false);
                    }
                }
                res
            },
            None => Ok(()),
        }
    }

    /// One derivation pass of a delta demand against a record list: derive
    /// the per-dependency demands and submit each; dependencies whose
    /// records are already cached are queued for `process_ready` rather
    /// than derived recursively. On success the pass changes exactly the
    /// derived keys: their `done` entries are merged, the unfetched
    /// non-no-op ones gain pending demand, the unseen ones are dispatched,
    /// and the fetched non-no-op ones are queued.
    pub fn process(&mut self, wants: &Demand, versions: &Vec<Crate>) -> (r: Result<
        (),
        ExploreError,
    >)
        requires
            old(self).wf(),
            wants.wf(),
        ensures
            final(self).wf(),
            grows(old(self)@, final(self)@),
            r is Ok <==> derive_error(wants@, records_view(versions@)) is None,
            derive_error(wants@, records_view(versions@)) matches Some(ev) ==> r matches Err(e)
                && e@ == ev && final(self)@ == old(self)@,
            derive_error(wants@, records_view(versions@)) is None ==> final(self)@.done
                == done_after_pass(old(self)@.done, derive_map(wants@, records_view(versions@)))
                && final(self)@.todo == todo_after_pass(
                old(self)@.todo,
                old(self)@.done,
                old(self)@.crates,
                derive_map(wants@, records_view(versions@)),
            ) && final(self)@.crates == crates_after_pass(
                old(self)@.crates,
                derive_map(wants@, records_view(versions@)),
            ) && pass_appends(old(self)@, final(self)@, derive_map(wants@, records_view(versions@))),
            derive_error(wants@, records_view(versions@)) is None ==> forall|q: Seq<char>|
                #[trigger] derive_map(wants@, records_view(versions@)).contains_key(q)
                    ==> final(self)@.done.contains_key(q) && demand_extends(
                    final(self)@.done[q],
                    derive_map(wants@, records_view(versions@))[q],
                ),
            r matches Err(e) ==> is_derivation_error(e@),
    {
        let dm = match derive_demands(wants, versions) {
            Ok(m) => m,
            Err(e) => {
                proof {
                    assert(grows(self@, self@)) by {
                        assert(self@.to_fetch.take(self@.to_fetch.len() as int) =~= self@
                            .to_fetch);
                    };
                    crate::derivation::lemma_derive_error_kind(
                        wants@,
                        records_view(versions@),
                        0,
                    );
                }
                return Err(e);
            },
        };
        let ghost pre = self@;
        let ghost keys = dm.key_seq();
        proof {
            dm.lemma_keys();
            assert(grows(pre, pre)) by {
                assert(pre.to_fetch.take(pre.to_fetch.len() as int) =~= pre.to_fetch);
            };
            assert(self@.done =~= done_mid(pre.done, dm@, keys, 0));
            assert(self@.todo =~= todo_mid(pre.todo, pre.done, pre.crates, dm@, keys, 0));
            assert(self@.crates =~= crates_mid(pre.crates, dm@, keys, 0));
            assert(self@.ready.take(pre.ready.len() as int) =~= pre.ready);
        }
        let n = dm.entry_len();
        let mut i: usize = 0;
        while i < n
            invariant
                self.wf(),
                grows(pre, self@),
                dm.wf(),
                n == keys.len(),
                keys == dm.key_seq(),
                i <= n,
                forall|k: Seq<char>| #[trigger] dm@.contains_key(k) <==> keys.contains(k),
                forall|j1: int, j2: int| 0 <= j1 < j2 < n ==> keys[j1] != keys[j2],
                forall|k: Seq<char>| #[trigger] pre.done.contains_key(k)
                    ==> pre.crates.contains_key(k),
                forall|k: Seq<char>| #[trigger] pre.todo.contains_key(k)
                    ==> pre.crates.contains_key(k) && pre.crates[k] is InFlight,
                self@.done == done_mid(pre.done, dm@, keys, i as int),
                self@.todo == todo_mid(pre.todo, pre.done, pre.crates, dm@, keys, i as int),
                self@.crates == crates_mid(pre.crates, dm@, keys, i as int),
                self@.ready.len() >= pre.ready.len(),
                self@.ready.take(pre.ready.len() as int) == pre.ready,
                forall|idx: int|
                    pre.ready.len() <= idx < self@.ready.len() ==> dm@.contains_key(
                        (#[trigger] self@.ready[idx]).0,
                    ) && seen(keys, i as int, self@.ready[idx].0) && is_fetched(
                        pre.crates,
                        self@.ready[idx].0,
                    ) && !pass_noop(pre.done, self@.ready[idx].0, dm@[self@.ready[idx].0])
                        && self@.ready[idx].1 == dm@[self@.ready[idx].0],
                forall|idx1: int, idx2: int|
                    pre.ready.len() <= idx1 < idx2 < self@.ready.len() ==> (
                    #[trigger] self@.ready[idx1]).0 != (#[trigger] self@.ready[idx2]).0,
                forall|j: int|
                    0 <= j < i && is_fetched(pre.crates, #[trigger] keys[j]) && !pass_noop(
                        pre.done,
                        keys[j],
                        dm@[keys[j]],
                    ) ==> exists|idx: int|
                        pre.ready.len() <= idx < self@.ready.len() && (
                        #[trigger] self@.ready[idx]).0 == keys[j],
                forall|idx: int|
                    pre.to_fetch.len() <= idx < self@.to_fetch.len() ==> dm@.contains_key(
                        #[trigger] self@.to_fetch[idx],
                    ) && seen(keys, i as int, self@.to_fetch[idx]),
                forall|j: int|
                    0 <= j < i && !pre.crates.contains_key(#[trigger] keys[j]) ==> exists|
                        idx: int,
                    |
                        pre.to_fetch.len() <= idx < self@.to_fetch.len() && self@.to_fetch[idx]
                            == keys[j],
            decreases n - i,
        {
            let ghost mid = self@;
            let ghost kk = keys[i as int];
            let ghost w = dm@[kk];
            let nm: String;
            let dd: Demand;
            {
                let p = dm.at(i);
                nm = p.0.clone();
                dd = p.1.duplicate();
            }
            proof {
                assert(nm@ == kk);
                assert(dd@ == w);
                assert(dm@.contains_key(kk));
                assert(!seen(keys, i as int, kk)) by {
                    if seen(keys, i as int, kk) {
                        let j = choose|j: int| 0 <= j < i && keys[j] == kk;
                        assert(keys[j] != keys[i as int]);
                        assert(false);
                    }
                };
                // the mid-state at the key behaves like the pre-state
                assert(mid.done.contains_key(kk) == pre.done.contains_key(kk));
                assert(pre.done.contains_key(kk) ==> mid.done[kk] == pre.done[kk]);
                assert(mid.crates.contains_key(kk) == pre.crates.contains_key(kk));
                assert(pre.crates.contains_key(kk) ==> mid.crates[kk] == pre.crates[kk]);
                assert(mid.todo.contains_key(kk) == pre.todo.contains_key(kk));
                assert(pre.todo.contains_key(kk) ==> mid.todo[kk] == pre.todo[kk]);
                lemma_done_mid_step(pre.done, dm@, keys, i as int);
                lemma_todo_mid_step(pre.todo, pre.done, pre.crates, dm@, keys, i as int);
                lemma_crates_mid_step(pre.crates, dm@, keys, i as int);
            }
            let ghost noopc = pass_noop(pre.done, kk, w);
            proof {
                assert(is_noop(mid, kk, w) == noopc);
                if noopc {
                    // a no-op key was already submitted, hence already cached
                    assert(pre.crates.contains_key(kk));
                    lemma_upsert_noop(done_mid(pre.done, dm@, keys, i as int), kk, w);
                }
                if is_fetched(pre.crates, kk) {
                    // pending demand exists only for in-flight names
                    if mid.todo.contains_key(kk) {
                        assert(pre.todo.contains_key(kk));
                        assert(pre.crates[kk] is InFlight);
                        assert(false);
                    }
                }
            }
            let jr = self.submit(nm, dd);
            match jr {
                Some(job) => {
                    let ghost s2 = *self;
                    proof {
                        assert(job.1.wf() && s2.crates@.contains_key(job.0@)
                            && s2.crates@[job.0@] is Fetched);
                        assert(job.0@ == kk && job.1@ == w);
                        assert(!noopc && is_fetched(pre.crates, kk));
                        assert(s2@.todo =~= mid.todo) by {
                            assert(s2@.todo == mid.todo.remove(kk));
                        };
                    }
                    self.ready.push(job);
                    proof {
                        assert forall|j: int|
                            0 <= j < self.ready@.len() implies (#[trigger] self.ready@[j].1)
                            .wf() && self.crates@.contains_key(self.ready@[j].0@)
                            && self.crates@[self.ready@[j].0@] is Fetched by {
                            if j < self.ready@.len() - 1 {
                                assert(self.ready@[j] == s2.ready@[j]);
                                assert(s2.ready@[j].1.wf());
                                assert(s2.crates@.contains_key(s2.ready@[j].0@));
                            }
                        };
                        assert(self.wf());
                        assert(self@.ready =~= s2@.ready.push((kk, w)));
                    }
                },
                None => {},
            }
            proof {
                lemma_grows_trans(pre, mid, self@);
                // the five state components take one exact step
                if noopc {
                    assert(self@.done == done_mid(pre.done, dm@, keys, i as int + 1));
                    assert(self@.todo == todo_mid(
                        pre.todo,
                        pre.done,
                        pre.crates,
                        dm@,
                        keys,
                        i as int + 1,
                    ));
                    assert(self@.crates == crates_mid(pre.crates, dm@, keys, i as int + 1));
                    assert(self@.ready == mid.ready);
                    assert(self@.to_fetch == mid.to_fetch);
                } else {
                    assert(self@.done == upsert_demand(mid.done, kk, w));
                    assert(self@.done == done_mid(pre.done, dm@, keys, i as int + 1));
                    if is_fetched(pre.crates, kk) {
                        assert(mid.todo.remove(kk) =~= mid.todo);
                        assert(self@.todo == todo_mid(
                            pre.todo,
                            pre.done,
                            pre.crates,
                            dm@,
                            keys,
                            i as int + 1,
                        ));
                        assert(self@.crates == crates_mid(pre.crates, dm@, keys, i as int + 1));
                        assert(self@.to_fetch == mid.to_fetch);
                    } else {
                        assert(self@.todo == upsert_demand(mid.todo, kk, w));
                        assert(self@.todo == todo_mid(
                            pre.todo,
                            pre.done,
                            pre.crates,
                            dm@,
                            keys,
                            i as int + 1,
                        ));
                        assert(self@.crates == crates_mid(pre.crates, dm@, keys, i as int + 1));
                        assert(self@.ready == mid.ready);
                    }
                }
                // queue bookkeeping
                assert(self@.ready.take(pre.ready.len() as int) =~= pre.ready);
                assert(self@.to_fetch.take(pre.to_fetch.len() as int) =~= pre.to_fetch);
                assert forall|idx: int|
                    pre.ready.len() <= idx < self@.ready.len() implies dm@.contains_key(
                    (#[trigger] self@.ready[idx]).0,
                ) && seen(keys, i as int + 1, self@.ready[idx].0) && is_fetched(
                    pre.crates,
                    self@.ready[idx].0,
                ) && !pass_noop(pre.done, self@.ready[idx].0, dm@[self@.ready[idx].0])
                    && self@.ready[idx].1 == dm@[self@.ready[idx].0] by {
                    if idx < mid.ready.len() {
                        assert(self@.ready[idx] == mid.ready[idx]);
                        assert(seen(keys, i as int, mid.ready[idx].0));
                        let j = choose|j: int| 0 <= j < i && keys[j] == mid.ready[idx].0;
                        assert(seen(keys, i as int + 1, mid.ready[idx].0));
                    } else {
                        assert(self@.ready[idx] == (kk, w));
                        assert(seen(keys, i as int + 1, kk));
                    }
                };
                assert forall|idx1: int, idx2: int|
                    pre.ready.len() <= idx1 < idx2 < self@.ready.len() implies (
                #[trigger] self@.ready[idx1]).0 != (#[trigger] self@.ready[idx2]).0 by {
                    if idx2 >= mid.ready.len() {
                        assert(self@.ready[idx2].0 == kk);
                        assert(self@.ready[idx1] == mid.ready[idx1]);
                        if mid.ready[idx1].0 == kk {
                            assert(seen(keys, i as int, kk));
                            assert(false);
                        }
                    } else {
                        assert(self@.ready[idx1] == mid.ready[idx1]);
                        assert(self@.ready[idx2] == mid.ready[idx2]);
                    }
                };
                assert forall|j: int|
                    0 <= j < i + 1 && is_fetched(pre.crates, #[trigger] keys[j]) && !pass_noop(
                        pre.done,
                        keys[j],
                        dm@[keys[j]],
                    ) implies exists|idx: int|
                        pre.ready.len() <= idx < self@.ready.len() && (
                        #[trigger] self@.ready[idx]).0 == keys[j] by {
                    if j < i {
                        let idx = choose|idx: int|
                            pre.ready.len() <= idx < mid.ready.len() && (
                            #[trigger] mid.ready[idx]).0 == keys[j];
                        assert(self@.ready[idx] == mid.ready[idx]);
                    } else {
                        assert(self@.ready[self@.ready.len() - 1].0 == kk);
                    }
                };
                assert forall|idx: int|
                    pre.to_fetch.len() <= idx < self@.to_fetch.len() implies dm@.contains_key(
                    #[trigger] self@.to_fetch[idx],
                ) && seen(keys, i as int + 1, self@.to_fetch[idx]) by {
                    if idx < mid.to_fetch.len() {
                        assert(self@.to_fetch[idx] == mid.to_fetch[idx]);
                        assert(seen(keys, i as int, mid.to_fetch[idx]));
                        let j = choose|j: int| 0 <= j < i && keys[j] == mid.to_fetch[idx];
                        assert(seen(keys, i as int + 1, mid.to_fetch[idx]));
                    } else {
                        assert(self@.to_fetch[idx] == kk);
                        assert(seen(keys, i as int + 1, kk));
                    }
                };
                assert forall|j: int|
                    0 <= j < i + 1 && !pre.crates.contains_key(#[trigger] keys[j])
                        implies exists|idx: int|
                        pre.to_fetch.len() <= idx < self@.to_fetch.len() && self@.to_fetch[idx]
                            == keys[j] by {
                    if j < i {
                        let idx = choose|idx: int|
                            pre.to_fetch.len() <= idx < mid.to_fetch.len()
                                && mid.to_fetch[idx] == keys[j];
                        assert(self@.to_fetch[idx] == mid.to_fetch[idx]);
                    } else {
                        assert(!noopc);
                        assert(self@.to_fetch == mid.to_fetch.push(kk));
                        assert(self@.to_fetch[self@.to_fetch.len() - 1] == kk);
                    }
                };
            }
            i += 1;
        }
        proof {
            // every derived key was processed
            assert forall|q: Seq<char>| #[trigger] dm@.contains_key(q) implies seen(
                keys,
                n as int,
                q,
            ) by {
                assert(keys.contains(q));
                let j = choose|j: int| 0 <= j < keys.len() && keys[j] == q;
            };
            assert forall|q: Seq<char>| seen(keys, n as int, q) implies dm@.contains_key(
                q,
            ) by {
                let j = choose|j: int| 0 <= j < n && keys[j] == q;
                assert(keys.contains(q));
            };
            assert(self@.done =~= done_after_pass(pre.done, dm@));
            assert(self@.todo =~= todo_after_pass(pre.todo, pre.done, pre.crates, dm@));
            assert(self@.crates =~= crates_after_pass(pre.crates, dm@));
            assert(pass_appends(pre, self@, dm@)) by {
                assert forall|k: Seq<char>|
                    #[trigger] dm@.contains_key(k) && is_fetched(pre.crates, k) && !pass_noop(
                        pre.done,
                        k,
                        dm@[k],
                    ) implies exists|idx: int|
                        pre.ready.len() <= idx < self@.ready.len() && (
                        #[trigger] self@.ready[idx]).0 == k by {
                    let j = choose|j: int| 0 <= j < keys.len() && keys[j] == k;
                };
                assert forall|k: Seq<char>|
                    #[trigger] dm@.contains_key(k) && !pre.crates.contains_key(k)
                        implies exists|idx: int|
                        pre.to_fetch.len() <= idx < self@.to_fetch.len() && self@.to_fetch[idx]
                            == k by {
                    let j = choose|j: int| 0 <= j < keys.len() && keys[j] == k;
                };
            };
            assert forall|q: Seq<char>| #[trigger] dm@.contains_key(q)
                implies self@.done.contains_key(q) && demand_extends(
                self@.done[q],
                dm@[q],
            ) by {
                assert(done_after_pass(pre.done, dm@).contains_key(q));
            };
        }
        Ok(())
    }

    /// Run one queued derivation pass, if any; reports whether one ran.
    pub fn process_ready(&mut self) -> (r: Result<bool, ExploreError>)
        requires
            old(self).wf(),
        ensures
            final(self).wf(),
            grows(old(self)@, final(self)@),
            r matches Ok(b) ==> b == (old(self)@.ready.len() > 0),
            old(self)@.ready.len() == 0 ==> r is Ok && final(self)@ == old(self)@,
            old(self)@.ready.len() > 0 ==> old(self)@.crates.contains_key(
                old(self)@.ready.last().0,
            ),
            old(self)@.crates[old(self)@.ready.last().0] matches CacheView::Fetched(rv) ==> (
            old(self)@.ready.len() > 0 ==> (derive_error(old(self)@.ready.last().1, rv)
                is None ==> (final(self)@.done == done_after_pass(
                old(self)@.done,
                derive_map(old(self)@.ready.last().1, rv),
            ) && final(self)@.todo == todo_after_pass(
                old(self)@.todo,
                old(self)@.done,
                old(self)@.crates,
                derive_map(old(self)@.ready.last().1, rv),
            ) && final(self)@.crates == crates_after_pass(
                old(self)@.crates,
                derive_map(old(self)@.ready.last().1, rv),
            ) && pass_appends(
                (ExplorationView { ready: old(self)@.ready.drop_last(), ..old(self)@ }),
                final(self)@,
                derive_map(old(self)@.ready.last().1, rv),
            )))),
            old(self)@.crates[old(self)@.ready.last().0] matches CacheView::Fetched(rv) ==> (
            old(self)@.ready.len() > 0 ==> ((r is Ok <==> derive_error(
                old(self)@.ready.last().1,
                rv,
            ) is None) && (derive_error(old(self)@.ready.last().1, rv) matches Some(ev)
                ==> r matches Err(e) && e@ == ev) && (derive_error(
                old(self)@.ready.last().1,
                rv,
            ) is None ==> forall|q: Seq<char>|
                #[trigger] derive_map(old(self)@.ready.last().1, rv).contains_key(q)
                    ==> final(self)@.done.contains_key(q) && demand_extends(
                    final(self)@.done[q],
                    derive_map(old(self)@.ready.last().1, rv)[q],
                )))),
            r matches Err(e) ==> is_derivation_error(e@),
    {
        match self.ready.pop() {
            None => {
                proof {
                    assert(self@ =~= old(self)@);
                    assert(grows(old(self)@, self@)) by {
                        assert(self@.to_fetch.take(old(self)@.to_fetch.len() as int) =~= old(
                            self,
                        )@.to_fetch);
                    };
                }
                Ok(false)
            },
            Some(job) => {
                let (nm, w) = job;
                let ghost mid = self@;
                proof {
                    assert(old(self)@.ready.last() == (nm@, w@));
                    assert(w.wf() && self.crates@.contains_key(nm@) && self.crates@[nm@]
                        is Fetched) by {
                        assert(old(self).ready@[old(self).ready@.len() - 1].1.wf());
                    };
                    assert(grows(old(self)@, mid)) by {
                        assert(mid.to_fetch.take(old(self)@.to_fetch.len() as int) =~= old(
                            self,
                        )@.to_fetch);
                    };
                }
                let recs = match self.crates.get_records(&nm) {
                    Some(v) => crate::records::duplicate_records(v),
                    None => {
                        proof {
                            assert(false);
                        }
                        Vec::new()
                    },
                };
                proof {
                    assert(old(self)@.crates[nm@] matches CacheView::Fetched(rv)
                        ==> records_view(recs@) == rv);
                    // popping the queued pass changes only the ready queue
                    assert(mid =~= (ExplorationView {
                        ready: old(self)@.ready.drop_last(),
                        ..old(self)@
                    }));
                }
                let res = self.process(&w, &recs);
                proof {
                    lemma_grows_trans(old(self)@, mid, self@);
                }
                match res {
                    Ok(_) => Ok(true),
                    Err(e) => Err(e),
                }
            },
        }
    }

    /// Feed one fetch outcome back into the engine. A fetch failure is
    /// fatal to the whole exploration and is handed back unchanged; a
    /// success moves the name from in-flight to fetched and queues its
    /// pending demand, if any, for derivation.
    pub fn on_fetch_result(&mut self, msg: Result<(String, Vec<Crate>), ExploreError>) -> (r:
        Result<(), ExploreError>)
        requires
            old(self).wf(),
            msg matches Ok(p) ==> old(self)@.crates.contains_key(p.0@) && old(self)@.crates[p.0@]
                is InFlight,
        ensures
            final(self).wf(),
            grows(old(self)@, final(self)@),
            msg matches Err(e) ==> r matches Err(e2) && e2 == e && final(self)@ == old(self)@,
            msg matches Ok(p) ==> r is Ok && final(self)@.crates == old(self)@.crates.insert(
                p.0@,
                CacheView::Fetched(records_view(p.1@)),
            ) && final(self)@.todo == old(self)@.todo.remove(p.0@) && final(self)@.done == old(
                self,
            )@.done && final(self)@.to_fetch == old(self)@.to_fetch && (old(
                self,
            )@.todo.contains_key(p.0@) ==> final(self)@.ready == old(self)@.ready.push(
                (p.0@, old(self)@.todo[p.0@]),
            )) && (!old(self)@.todo.contains_key(p.0@) ==> final(self)@.ready == old(
                self,
            )@.ready),
    {
        match msg {
            Err(e) => {
                proof {
                    assert(grows(self@, self@)) by {
                        assert(self@.to_fetch.take(self@.to_fetch.len() as int) =~= self@
                            .to_fetch);
                    };
                }
                Err(e)
            },
            Ok((name, recs)) => {
                let ghost k = name@;
                self.crates.set_fetched(&name, recs);
                let ghost mid = self@;
                match self.todo.remove(&name) {
                    Some(w) => {
                        self.ready.push((name, w));
                        proof {
                            assert(self@.ready =~= old(self)@.ready.push(
                                (k, old(self)@.todo[k]),
                            ));
                        }
                    },
                    None => {
                        proof {
                            assert(self@.todo =~= old(self)@.todo.remove(k));
                            assert(self@.ready =~= old(self)@.ready);
                        }
                    },
                }
                proof {
                    assert forall|i: int|
                        0 <= i < self.ready@.len() implies (#[trigger] self.ready@[i].1).wf()
                        && self.crates@.contains_key(self.ready@[i].0@)
                        && self.crates@[self.ready@[i].0@] is Fetched by {
                        if i < old(self).ready@.len() {
                            assert(old(self).ready@[i].1.wf());
                            assert(old(self).crates@.contains_key(old(self).ready@[i].0@));
                        }
                    };
                    assert(grows(old(self)@, self@)) by {
                        assert(self@.to_fetch.take(old(self)@.to_fetch.len() as int) =~= old(
                            self,
                        )@.to_fetch);
                        assert forall|q: Seq<char>|
                            #[trigger] old(self)@.crates.contains_key(q)
                                implies self@.crates.contains_key(q) && (old(self)@.crates[q]
                                is Fetched ==> self@.crates[q] == old(self)@.crates[q]) by {
                            if q == k {
                                assert(old(self)@.crates[k] is InFlight);
                            }
                        };
                    };
                    assert forall|q: Seq<char>| #[trigger] self.todo@.contains_key(q)
                        implies self.crates@.contains_key(q) && self.crates@[q]
                        is InFlight by {
                        assert(q != k);
                        assert(old(self).todo@.contains_key(q));
                        assert(old(self).crates@[q] is InFlight);
                    };
                    assert forall|q: Seq<char>| #[trigger] self.done@.contains_key(q)
                        implies self.crates@.contains_key(q) by {
                        assert(old(self).done@.contains_key(q));
                    };
                }
                Ok(())
            },
        }
    }

    /// Whether any derivation pass is queued.
    pub fn has_ready(&self) -> (b: bool)
        ensures
            b == (self@.ready.len() > 0),
    {
        self.ready.len() > 0
    }

    /// Whether any package still has demand waiting on an outstanding
    /// fetch. The caller's drain loop ends when this is false and no pass
    /// is queued.
    pub fn awaiting_fetch(&self) -> (b: bool)
        ensures
            b <==> self@.todo.dom() != Set::<Seq<char>>::empty(),
    {
        let e = self.todo.is_empty();
        !e
    }

    /// Hand out the names whose fetch the caller must dispatch; each name
    /// is handed out exactly once over the whole exploration.
    pub fn take_fetches(&mut self) -> (r: Vec<String>)
        requires
            old(self).wf(),
        ensures
            final(self).wf(),
            r@.len() == old(self)@.to_fetch.len(),
            forall|i: int| 0 <= i < r@.len() ==> r@[i]@ == old(self)@.to_fetch[i],
            final(self)@.to_fetch == Seq::<Seq<char>>::empty(),
            final(self)@.crates == old(self)@.crates,
            final(self)@.done == old(self)@.done,
            final(self)@.todo == old(self)@.todo,
            final(self)@.ready == old(self)@.ready,
    {
        let ghost pre = *self;
        let n = self.to_fetch.len();
        let mut r: Vec<String> = Vec::new();
        let mut i: usize = 0;
        while i < n
            invariant
                *self == pre,
                n == self.to_fetch@.len(),
                i <= n,
                r@.len() == i,
                forall|j: int| 0 <= j < i ==> r@[j]@ == self.to_fetch@[j]@,
            decreases n - i,
        {
            r.push(self.to_fetch[i].clone());
            i += 1;
        }
        self.to_fetch.clear();
        proof {
            assert(self@.to_fetch =~= Seq::<Seq<char>>::empty());
            assert forall|q: Seq<char>| #[trigger] self.todo@.contains_key(q)
                implies self.crates@.contains_key(q) && self.crates@[q] is InFlight by {
                assert(pre.todo@.contains_key(q));
            };
            assert forall|q: Seq<char>| #[trigger] self.done@.contains_key(q)
                implies self.crates@.contains_key(q) by {
                assert(pre.done@.contains_key(q));
            };
        }
        r
    }

    /// Whether a fetch for the name was dispatched and has not completed.
    pub fn is_in_flight(&self, name: &String) -> (b: bool)
        requires
            self.wf(),
        ensures
            b == (self@.crates.contains_key(name@) && self@.crates[name@] is InFlight),
    {
        self.crates.is_in_flight(name)
    }

    /// The names of every package whose exploration was ever submitted:
    /// the discovered set.
    pub fn done_names(&self) -> (r: Vec<String>)
        requires
            self.wf(),
        ensures
            forall|i: int| 0 <= i < r@.len() ==> self@.done.contains_key(#[trigger] r@[i]@),
            forall|q: Seq<char>|
                #[trigger] self@.done.contains_key(q) ==> exists|i: int|
                    0 <= i < r@.len() && r@[i]@ == q,
    {
        let r = self.done.names();
        proof {
            self.done.lemma_keys();
            assert forall|q: Seq<char>| #[trigger] self@.done.contains_key(q)
                implies exists|i: int| 0 <= i < r@.len() && r@[i]@ == q by {
                let j = choose|j: int|
                    0 <= j < self.done.key_seq().len() && self.done.key_seq()[j] == q;
                assert(r@[j]@ == q);
            };
        }
        r
    }

    /// The demand already submitted for the name, if any.
    pub fn done_demand(&self, name: &String) -> (r: Option<&Demand>)
        requires
            self.wf(),
        ensures
            match r {
                Some(d) => self@.done.contains_key(name@) && d@ == self@.done[name@],
                None => !self@.done.contains_key(name@),
            },
    {
        self.done.get(name)
    }
}

} // verus!
