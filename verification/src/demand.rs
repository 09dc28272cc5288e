//! Per-package accumulated demand: the union of feature requests and
//! version-range requests gathered for one package across all exploration
//! paths reaching it. Sets only grow; `merge` is the sole mutation entry
//! point and reports whether the union changed.

use vstd::prelude::*;
use vstd::string::StrSliceExecFns;
use crate::error::ExploreError;
use crate::semver_api::{parse_requirement, matches_requirement, semver_error_text, req_ok,
    req_match_total};

verus! {

/// A set of strings, stored as a vector without duplicate values.
#[derive(Debug, PartialEq)]
struct StrSet {
    items: Vec<String>,
}

impl View for StrSet {
    type V = Set<Seq<char>>;

    closed spec fn view(&self) -> Set<Seq<char>> {
        Set::new(|s: Seq<char>| exists|i: int| 0 <= i < self.items@.len() && self.items@[i]@ == s)
    }
}

impl StrSet {
    spec fn wf(&self) -> bool {
        forall|i: int, j: int|
            0 <= i < j < self.items@.len() ==> self.items@[i]@ != self.items@[j]@
    }

    fn new() -> (s: StrSet)
        ensures
            s.wf(),
            s@ == Set::<Seq<char>>::empty(),
    {
        let s = StrSet { items: Vec::new() };
        proof {
            assert(s@ =~= Set::<Seq<char>>::empty());
        }
        s
    }

    fn contains(&self, x: &String) -> (b: bool)
        ensures
            b == self@.contains(x@),
    {
        let n = self.items.len();
        let mut i: usize = 0;
        while i < n
            invariant
                n == self.items@.len(),
                i <= n,
                forall|j: int| 0 <= j < i ==> self.items@[j]@ != x@,
            decreases n - i,
        {
            if self.items[i].eq(x) {
                proof {
                    assert(self.items@[i as int]@ == x@);
                }
                return true;
            }
            i += 1;
        }
        proof {
            if self@.contains(x@) {
                let k = choose|k: int| 0 <= k < self.items@.len() && self.items@[k]@ == x@;
                assert(false);
            }
        }
        false
    }

    fn insert(&mut self, x: String) -> (changed: bool)
        requires
            old(self).wf(),
        ensures
            final(self).wf(),
            final(self)@ == old(self)@.insert(x@),
            changed == !old(self)@.contains(x@),
    {
        if self.contains(&x) {
            proof {
                assert(old(self)@.insert(x@) =~= old(self)@);
            }
            false
        } else {
            self.items.push(x);
            proof {
                let pre = old(self)@;
                let prev = old(self).items@;
                let xv = self.items@[prev.len() as int]@;
                assert forall|s: Seq<char>| #[trigger] self@.contains(s) implies pre.insert(
                    xv,
                ).contains(s) by {
                    let i = choose|i: int|
                        0 <= i < self.items@.len() && self.items@[i]@ == s;
                    if i < prev.len() {
                        assert(prev[i]@ == s);
                        assert(pre.contains(s));
                    }
                };
                assert forall|s: Seq<char>| pre.insert(xv).contains(s) implies self@.contains(
                    s,
                ) by {
                    if s == xv {
                        assert(self.items@[prev.len() as int]@ == s);
                    } else {
                        let i = choose|i: int| 0 <= i < prev.len() && prev[i]@ == s;
                        assert(self.items@[i]@ == s);
                    }
                };
                assert(self@ =~= pre.insert(xv));
                assert forall|i: int, j: int|
                    0 <= i < j < self.items@.len() implies self.items@[i]@
                    != self.items@[j]@ by {
                    if j == prev.len() {
                        if self.items@[i]@ == xv {
                            assert(prev[i]@ == xv);
                            assert(pre.contains(xv));
                            assert(false);
                        }
                    } else {
                        assert(prev[i]@ != prev[j]@);
                    }
                };
            }
            true
        }
    }

    fn union_from(&mut self, other: &StrSet) -> (changed: bool)
        requires
            old(self).wf(),
            other.wf(),
        ensures
            final(self).wf(),
            final(self)@ == old(self)@ + other@,
            changed == !other@.subset_of(old(self)@),
    {
        let ghost orig: Set<Seq<char>> = self@;
        let n = other.items.len();
        let mut changed = false;
        let mut i: usize = 0;
        while i < n
            invariant
                n == other.items@.len(),
                i <= n,
                self.wf(),
                other.wf(),
                self@ == orig + prefix_views(other.items@, i as int),
                changed == !prefix_views(other.items@, i as int).subset_of(orig),
            decreases n - i,
        {
            let ghost before = self@;
            let ghost xv = other.items@[i as int]@;
            let c = self.insert(other.items[i].clone());
            proof {
                // the element is not among the earlier elements of `other`
                assert(!prefix_views(other.items@, i as int).contains(xv)) by {
                    if prefix_views(other.items@, i as int).contains(xv) {
                        let j = choose|j: int|
                            0 <= j < i && j < other.items@.len() && other.items@[j]@ == xv;
                        assert(other.items@[j]@ != other.items@[i as int]@);
                        assert(false);
                    }
                };
                assert(self@ =~= orig + prefix_views(other.items@, i as int + 1)) by {
                    assert forall|s: Seq<char>|
                        prefix_views(other.items@, i as int + 1).contains(s)
                            implies (prefix_views(other.items@, i as int).contains(s) || s
                            == xv) by {
                        let j = choose|j: int|
                            0 <= j < i + 1 && j < other.items@.len() && other.items@[j]@ == s;
                        if j < i {
                            assert(prefix_views(other.items@, i as int).contains(s));
                        }
                    };
                    assert(prefix_views(other.items@, i as int + 1).contains(xv));
                };
                assert((changed || c) == !prefix_views(other.items@, i as int + 1).subset_of(
                    orig,
                )) by {
                    assert(c == !before.contains(xv));
                    assert(before.contains(xv) == (orig.contains(xv) || prefix_views(
                        other.items@,
                        i as int,
                    ).contains(xv)));
                    if changed || c {
                        if c {
                            assert(!orig.contains(xv));
                            assert(prefix_views(other.items@, i as int + 1).contains(xv));
                        } else {
                            let s = choose|s: Seq<char>|
                                prefix_views(other.items@, i as int).contains(s)
                                    && !orig.contains(s);
                            assert(prefix_views(other.items@, i as int + 1).contains(s));
                        }
                    } else {
                        assert forall|s: Seq<char>|
                            prefix_views(other.items@, i as int + 1).contains(s)
                                implies orig.contains(s) by {
                            let j = choose|j: int|
                                0 <= j < i + 1 && j < other.items@.len() && other.items@[j]@
                                    == s;
                            if j < i {
                                assert(prefix_views(other.items@, i as int).contains(s));
                            } else {
                                assert(s == xv);
                            }
                        };
                    }
                };
            }
            changed = changed || c;
            i += 1;
        }
        proof {
            assert(prefix_views(other.items@, n as int) =~= other@);
        }
        changed
    }

    fn duplicate(&self) -> (r: StrSet)
        requires
            self.wf(),
        ensures
            r.wf(),
            r@ == self@,
    {
        let n = self.items.len();
        let mut items: Vec<String> = Vec::new();
        let mut i: usize = 0;
        while i < n
            invariant
                n == self.items@.len(),
                i <= n,
                items@.len() == i,
                forall|j: int| 0 <= j < i ==> items@[j]@ == self.items@[j]@,
            decreases n - i,
        {
            items.push(self.items[i].clone());
            i += 1;
        }
        let r = StrSet { items };
        proof {
            assert forall|s: Seq<char>| #[trigger] r@.contains(s) implies self@.contains(s) by {
                let j = choose|j: int| 0 <= j < r.items@.len() && r.items@[j]@ == s;
                assert(self.items@[j]@ == s);
            };
            assert forall|s: Seq<char>| #[trigger] self@.contains(s) implies r@.contains(s) by {
                let j = choose|j: int| 0 <= j < self.items@.len() && self.items@[j]@ == s;
                assert(r.items@[j]@ == s);
            };
            assert(r@ =~= self@);
        }
        r
    }
}

/// The views of the first `n` strings of a vector, as a set.
spec fn prefix_views(items: Seq<String>, n: int) -> Set<Seq<char>> {
    Set::new(|s: Seq<char>| exists|j: int| 0 <= j < n && j < items.len() && items[j]@ == s)
}

/// The non-empty views among the first `n` strings of a vector, as a set.
spec fn nonempty_prefix(items: Seq<String>, n: int) -> Set<Seq<char>> {
    Set::new(
        |s: Seq<char>|
            s.len() > 0 && exists|j: int| 0 <= j < n && j < items.len() && items[j]@ == s,
    )
}

/// The non-empty token suffixes among the first `n` tokens whose name part
/// is `n1` or `n2`, as a set.
spec fn suffix_prefix(items: Seq<String>, n: int, n1: Seq<char>, n2: Seq<char>) -> Set<
    Seq<char>,
> {
    Set::new(
        |s: Seq<char>|
            exists|j: int|
                0 <= j < n && j < items.len() && (token_name(items[j]@) == n1 || token_name(
                    items[j]@,
                ) == n2) && token_suffix(items[j]@) == s && s.len() > 0,
    )
}

/// Index of the first `/` in the token, or the token's length if none.
pub open spec fn slash_index(s: Seq<char>) -> int
    decreases s.len(),
{
    if s.len() == 0 {
        0
    } else if s[0] == '/' {
        0
    } else {
        1 + slash_index(s.skip(1))
    }
}

/// The part of a feature token before its first `/`: the name of the
/// optional dependency the token enables.
pub open spec fn token_name(s: Seq<char>) -> Seq<char> {
    s.take(slash_index(s))
}

/// The part of a feature token after its first `/` (empty if the token has
/// no `/`): a feature requested on the enabled dependency.
pub open spec fn token_suffix(s: Seq<char>) -> Seq<char> {
    if slash_index(s) == s.len() {
        Seq::empty()
    } else {
        s.skip(slash_index(s) + 1)
    }
}

proof fn lemma_slash_index_at(s: Seq<char>, i: int)
    requires
        0 <= i <= s.len(),
        forall|j: int| 0 <= j < i ==> s[j] != '/',
        i < s.len() ==> s[i] == '/',
    ensures
        slash_index(s) == i,
    decreases s.len(),
{
    if s.len() == 0 {
    } else if s[0] == '/' {
        assert(i == 0);
    } else {
        assert(i >= 1) by {
            if i == 0 {
                assert(s[0] == '/');
            }
        };
        assert forall|j: int| 0 <= j < i - 1 implies s.skip(1)[j] != '/' by {
            assert(s.skip(1)[j] == s[j + 1]);
        };
        assert(i - 1 < s.skip(1).len() ==> s.skip(1)[i - 1] == '/');
        lemma_slash_index_at(s.skip(1), i - 1);
    }
}

/// Index of the first `/` in the string, or its character length if none.
pub fn find_slash(s: &str) -> (i: usize)
    ensures
        i as int == slash_index(s@),
        0 <= i as int <= s@.len(),
{
    let n = s.unicode_len();
    let mut i: usize = 0;
    while i < n
        invariant
            n == s@.len(),
            i <= n,
            forall|j: int| 0 <= j < i ==> s@[j] != '/',
        decreases n - i,
    {
        if s.get_char(i) == '/' {
            proof {
                lemma_slash_index_at(s@, i as int);
            }
            return i;
        }
        i += 1;
    }
    proof {
        lemma_slash_index_at(s@, n as int);
    }
    n
}

/// The part of a feature token before its first `/`.
pub fn token_head(f: &str) -> (r: String)
    ensures
        r@ == token_name(f@),
{
    let i = find_slash(f);
    let sub = f.substring_char(0, i);
    proof {
        assert(sub@ == f@.take(slash_index(f@)));
    }
    sub.to_owned()
}

/// The part of a feature token after its first `/`, or `None` if the token
/// has no `/`.
pub fn token_rest(f: &str) -> (r: Option<String>)
    ensures
        match r {
            Some(t) => slash_index(f@) < f@.len() && t@ == token_suffix(f@),
            None => slash_index(f@) == f@.len(),
        },
{
    let n = f.unicode_len();
    let i = find_slash(f);
    if i < n {
        let sub = f.substring_char(i + 1, n);
        Some(sub.to_owned())
    } else {
        None
    }
}

/// Ghost image of a [`Demand`]: the set of feature-token views and the set
/// of range-expression views.
#[verifier::ext_equal]
pub struct DemandView {
    pub features: Set<Seq<char>>,
    pub reqs: Set<Seq<char>>,
}

/// The union of two demands.
pub open spec fn merge_views(a: DemandView, b: DemandView) -> DemandView {
    DemandView { features: a.features + b.features, reqs: a.reqs + b.reqs }
}

/// Whether merging `b` into `a` grows either set of `a`.
pub open spec fn merge_changed(a: DemandView, b: DemandView) -> bool {
    !(b.features.subset_of(a.features) && b.reqs.subset_of(a.reqs))
}

/// The demand with no features and no ranges.
pub open spec fn empty_demand() -> DemandView {
    DemandView { features: Set::empty(), reqs: Set::empty() }
}

/// Whether the demand enables the optional dependency named `n`: some
/// feature token's part before the first `/` is exactly `n`.
pub open spec fn enabled(d: DemandView, n: Seq<char>) -> bool {
    exists|f: Seq<char>| d.features.contains(f) && token_name(f) == n
}

/// The non-empty feature suffixes that the demand's tokens request on the
/// dependency named `n`.
pub open spec fn suffixes_for(d: DemandView, n: Seq<char>) -> Set<Seq<char>> {
    Set::new(
        |x: Seq<char>|
            x.len() > 0 && exists|f: Seq<char>|
                d.features.contains(f) && token_name(f) == n && token_suffix(f) == x,
    )
}

/// The non-empty members of a list of feature names, as a set.
pub open spec fn nonempty_set(fs: Seq<Seq<char>>) -> Set<Seq<char>> {
    Set::new(|x: Seq<char>| x.len() > 0 && fs.contains(x))
}

/// Merging a demand with itself changes nothing.
pub proof fn lemma_merge_idempotent(d: DemandView)
    ensures
        merge_views(d, d) == d,
        !merge_changed(d, d),
{
    assert(d.features + d.features =~= d.features);
    assert(d.reqs + d.reqs =~= d.reqs);
    assert(merge_views(d, d) =~= d);
}

/// Merging never shrinks either side's sets: both arguments are contained
/// in the union.
pub proof fn lemma_merge_monotonic(a: DemandView, b: DemandView)
    ensures
        a.features.subset_of(merge_views(a, b).features),
        a.reqs.subset_of(merge_views(a, b).reqs),
        b.features.subset_of(merge_views(a, b).features),
        b.reqs.subset_of(merge_views(a, b).reqs),
{
}

/// Per-package accumulated requirement: feature tokens (each either the
/// literal `default` or of the form `dependency/feature`) and semver range
/// expressions. A registry version is relevant if it satisfies any one of
/// the ranges.
#[derive(Debug, PartialEq)]
pub struct Demand {
    features: StrSet,
    reqs: StrSet,
}

impl View for Demand {
    type V = DemandView;

    closed spec fn view(&self) -> DemandView {
        DemandView { features: self.features@, reqs: self.reqs@ }
    }
}

impl Demand {
    pub closed spec fn wf(&self) -> bool {
        self.features.wf() && self.reqs.wf()
    }

    /// The demand with no features and no ranges.
    pub fn empty() -> (d: Demand)
        ensures
            d.wf(),
            d@ == empty_demand(),
    {
        let d = Demand { features: StrSet::new(), reqs: StrSet::new() };
        proof {
            assert(d@ =~= empty_demand());
        }
        d
    }

    /// A demand from explicit feature tokens and range expressions; each
    /// range must parse as a semver requirement, and the first one that does
    /// not is reported.
    pub fn new(features: Vec<String>, reqs: Vec<String>) -> (r: Result<Demand, ExploreError>)
        ensures
            match r {
                Ok(d) => {
                    &&& d.wf()
                    &&& d@.features == features.deep_view().to_set()
                    &&& d@.reqs == reqs.deep_view().to_set()
                    &&& forall|i: int| 0 <= i < reqs@.len() ==> req_ok(reqs@[i]@)
                },
                Err(e) => {
                    &&& e@ matches crate::error::ErrorView::InvalidVersionRequirement {
                        package,
                        dep,
                        req,
                    }
                    &&& (e@ matches crate::error::ErrorView::InvalidVersionRequirement {
                        package,
                        dep,
                        req,
                    } ==> package == Seq::<char>::empty() && dep == Seq::<char>::empty()
                        && !req_ok(req) && reqs.deep_view().contains(req))
                },
            },
            r is Ok <==> (forall|i: int| 0 <= i < reqs@.len() ==> req_ok(reqs@[i]@)),
    {
        let mut fset = StrSet::new();
        let nf = features.len();
        let mut i: usize = 0;
        while i < nf
            invariant
                nf == features@.len(),
                i <= nf,
                fset.wf(),
                fset@ == prefix_views(features@, i as int),
            decreases nf - i,
        {
            let ghost before = fset@;
            fset.insert(features[i].clone());
            proof {
                assert(fset@ =~= prefix_views(features@, i as int + 1)) by {
                    assert forall|s: Seq<char>|
                        prefix_views(features@, i as int + 1).contains(s) implies fset@.contains(
                        s,
                    ) by {
                        let j = choose|j: int|
                            0 <= j < i + 1 && j < features@.len() && features@[j]@ == s;
                        if j < i {
                            assert(before.contains(s));
                        }
                    };
                    assert forall|s: Seq<char>| #[trigger] fset@.contains(s)
                        implies prefix_views(features@, i as int + 1).contains(s) by {
                        if before.contains(s) {
                            let j = choose|j: int|
                                0 <= j < i && j < features@.len() && features@[j]@ == s;
                            assert(features@[j]@ == s);
                        } else {
                            assert(features@[i as int]@ == s);
                        }
                    };
                };
            }
            i += 1;
        }
        let mut qset = StrSet::new();
        let nq = reqs.len();
        let mut k: usize = 0;
        while k < nq
            invariant
                nq == reqs@.len(),
                k <= nq,
                qset.wf(),
                qset@ == prefix_views(reqs@, k as int),
                forall|j: int| 0 <= j < k ==> req_ok(reqs@[j]@),
            decreases nq - k,
        {
            match parse_requirement(reqs[k].as_str()) {
                Ok(_) => {},
                Err(pe) => {
                    let detail = semver_error_text(&pe);
                    proof {
                        assert(reqs.deep_view().len() == reqs@.len());
                        assert(reqs.deep_view()[k as int] == reqs@[k as int]@);
                        assert(reqs.deep_view().contains(reqs@[k as int]@));
                    }
                    return Err(
                        ExploreError::InvalidVersionRequirement {
                            package: String::new(),
                            dep: String::new(),
                            req: reqs[k].clone(),
                            detail,
                        },
                    );
                },
            }
            let ghost before = qset@;
            qset.insert(reqs[k].clone());
            proof {
                assert(qset@ =~= prefix_views(reqs@, k as int + 1)) by {
                    assert forall|s: Seq<char>|
                        prefix_views(reqs@, k as int + 1).contains(s) implies qset@.contains(
                        s,
                    ) by {
                        let j = choose|j: int|
                            0 <= j < k + 1 && j < reqs@.len() && reqs@[j]@ == s;
                        if j < k {
                            assert(before.contains(s));
                        }
                    };
                    assert forall|s: Seq<char>| #[trigger] qset@.contains(s)
                        implies prefix_views(reqs@, k as int + 1).contains(s) by {
                        if before.contains(s) {
                            let j = choose|j: int|
                                0 <= j < k && j < reqs@.len() && reqs@[j]@ == s;
                            assert(reqs@[j]@ == s);
                        } else {
                            assert(reqs@[k as int]@ == s);
                        }
                    };
                };
            }
            k += 1;
        }
        let d = Demand { features: fset, reqs: qset };
        proof {
            assert(d@.features =~= features.deep_view().to_set()) by {
                assert forall|s: Seq<char>| prefix_views(features@, nf as int).contains(s)
                    implies features.deep_view().to_set().contains(s) by {
                    let j = choose|j: int|
                        0 <= j < nf && j < features@.len() && features@[j]@ == s;
                    assert(features.deep_view()[j] == s);
                };
                assert forall|s: Seq<char>| features.deep_view().to_set().contains(s)
                    implies prefix_views(features@, nf as int).contains(s) by {
                    let j = choose|j: int|
                        0 <= j < features.deep_view().len() && features.deep_view()[j] == s;
                    assert(features@[j]@ == s);
                };
            };
            assert(d@.reqs =~= reqs.deep_view().to_set()) by {
                assert forall|s: Seq<char>| prefix_views(reqs@, nq as int).contains(s)
                    implies reqs.deep_view().to_set().contains(s) by {
                    let j = choose|j: int| 0 <= j < nq && j < reqs@.len() && reqs@[j]@ == s;
                    assert(reqs.deep_view()[j] == s);
                };
                assert forall|s: Seq<char>| reqs.deep_view().to_set().contains(s)
                    implies prefix_views(reqs@, nq as int).contains(s) by {
                    let j = choose|j: int|
                        0 <= j < reqs.deep_view().len() && reqs.deep_view()[j] == s;
                    assert(reqs@[j]@ == s);
                };
            };
        }
        Ok(d)
    }

    /// A fresh demand with the same contents.
    pub fn duplicate(&self) -> (r: Demand)
        requires
            self.wf(),
        ensures
            r.wf(),
            r@ == self@,
    {
        let r = Demand { features: self.features.duplicate(), reqs: self.reqs.duplicate() };
        proof {
            assert(r@ =~= self@);
        }
        r
    }

    /// Set-union `other` into `self`; true iff either set grew. This is the
    /// sole growth path for accumulated demand, and the basis for cycle-safe
    /// convergence: a package is only re-derived when its demand strictly
    /// increased.
    pub fn merge(&mut self, other: &Demand) -> (changed: bool)
        requires
            old(self).wf(),
            other.wf(),
        ensures
            final(self).wf(),
            final(self)@ == merge_views(old(self)@, other@),
            changed == merge_changed(old(self)@, other@),
            old(self)@.features.subset_of(final(self)@.features),
            old(self)@.reqs.subset_of(final(self)@.reqs),
            !changed ==> final(self)@ == old(self)@,
    {
        let cf = self.features.union_from(&other.features);
        let cr = self.reqs.union_from(&other.reqs);
        proof {
            assert(self@ =~= merge_views(old(self)@, other@));
            if !(cf || cr) {
                assert(old(self)@.features + other@.features =~= old(self)@.features);
                assert(old(self)@.reqs + other@.reqs =~= old(self)@.reqs);
                assert(self@ =~= old(self)@);
            }
        }
        cf || cr
    }

    /// Whether the feature token is present.
    pub fn has_feature(&self, f: &String) -> (b: bool)
        ensures
            b == self@.features.contains(f@),
    {
        self.features.contains(f)
    }

    /// Whether the range expression is present.
    pub fn has_req(&self, q: &String) -> (b: bool)
        ensures
            b == self@.reqs.contains(q@),
    {
        self.reqs.contains(q)
    }

    /// Whether the version string satisfies at least one of the demand's
    /// range expressions (OR semantics across ranges).
    pub fn matches_version(&self, vers: &String) -> (b: bool)
        ensures
            b == exists|r: Seq<char>| self@.reqs.contains(r) && req_match_total(r, vers@),
    {
        let n = self.reqs.items.len();
        let mut i: usize = 0;
        while i < n
            invariant
                n == self.reqs.items@.len(),
                i <= n,
                forall|j: int| 0 <= j < i ==> !req_match_total(self.reqs.items@[j]@, vers@),
            decreases n - i,
        {
            if matches_requirement(self.reqs.items[i].as_str(), vers.as_str()) {
                proof {
                    let rv = self.reqs.items@[i as int]@;
                    assert(self@.reqs.contains(rv));
                    assert(req_match_total(rv, vers@));
                }
                return true;
            }
            i += 1;
        }
        proof {
            if exists|r: Seq<char>| self@.reqs.contains(r) && req_match_total(r, vers@) {
                let r = choose|r: Seq<char>|
                    self@.reqs.contains(r) && req_match_total(r, vers@);
                let j = choose|j: int|
                    0 <= j < self.reqs.items@.len() && self.reqs.items@[j]@ == r;
                assert(false);
            }
        }
        false
    }

    /// Whether the demand enables the optional dependency named `n`.
    pub fn enables(&self, n: &String) -> (b: bool)
        ensures
            b == enabled(self@, n@),
    {
        let m = self.features.items.len();
        let mut i: usize = 0;
        while i < m
            invariant
                m == self.features.items@.len(),
                i <= m,
                forall|j: int| 0 <= j < i ==> token_name(self.features.items@[j]@) != n@,
            decreases m - i,
        {
            let h = token_head(self.features.items[i].as_str());
            if h.eq(n) {
                proof {
                    let fv = self.features.items@[i as int]@;
                    assert(self@.features.contains(fv));
                    assert(token_name(fv) == n@);
                }
                return true;
            }
            i += 1;
        }
        proof {
            if enabled(self@, n@) {
                let f = choose|f: Seq<char>|
                    self@.features.contains(f) && token_name(f) == n@;
                let j = choose|j: int|
                    0 <= j < self.features.items@.len() && self.features.items@[j]@ == f;
                assert(false);
            }
        }
        false
    }

    /// Insert one feature token.
    pub fn add_feature(&mut self, f: String)
        requires
            old(self).wf(),
        ensures
            final(self).wf(),
            final(self)@.features == old(self)@.features.insert(f@),
            final(self)@.reqs == old(self)@.reqs,
    {
        self.features.insert(f);
    }

    /// Insert one range expression.
    pub fn add_req(&mut self, q: String)
        requires
            old(self).wf(),
        ensures
            final(self).wf(),
            final(self)@.reqs == old(self)@.reqs.insert(q@),
            final(self)@.features == old(self)@.features,
    {
        self.reqs.insert(q);
    }

    /// Insert every non-empty member of a feature list.
    pub fn add_nonempty_features(&mut self, fs: &Vec<String>)
        requires
            old(self).wf(),
        ensures
            final(self).wf(),
            final(self)@.features == old(self)@.features + nonempty_set(fs.deep_view()),
            final(self)@.reqs == old(self)@.reqs,
    {
        let ghost orig: Set<Seq<char>> = self@.features;
        let n = fs.len();
        let mut i: usize = 0;
        while i < n
            invariant
                n == fs@.len(),
                i <= n,
                self.wf(),
                self@.reqs == old(self)@.reqs,
                self@.features == orig + nonempty_prefix(fs@, i as int),
            decreases n - i,
        {
            let ghost before = self@.features;
            let ghost xv = fs@[i as int]@;
            if !fs[i].as_str().is_empty() {
                self.features.insert(fs[i].clone());
            }
            proof {
                assert(self@.features =~= orig + nonempty_prefix(fs@, i as int + 1)) by {
                    assert forall|s: Seq<char>|
                        nonempty_prefix(fs@, i as int + 1).contains(s)
                            implies (nonempty_prefix(fs@, i as int).contains(s) || (s == xv
                            && xv.len() > 0)) by {
                        let j = choose|j: int|
                            0 <= j < i + 1 && j < fs@.len() && fs@[j]@ == s && s.len() > 0;
                        if j < i {
                            assert(nonempty_prefix(fs@, i as int).contains(s));
                        }
                    };
                    if xv.len() > 0 {
                        assert(nonempty_prefix(fs@, i as int + 1).contains(xv));
                    }
                };
            }
            i += 1;
        }
        proof {
            assert(nonempty_prefix(fs@, n as int) =~= nonempty_set(fs.deep_view())) by {
                assert forall|s: Seq<char>| nonempty_prefix(fs@, n as int).contains(s)
                    implies nonempty_set(fs.deep_view()).contains(s) by {
                    let j = choose|j: int|
                        0 <= j < n && j < fs@.len() && fs@[j]@ == s && s.len() > 0;
                    assert(fs.deep_view()[j] == s);
                };
                assert forall|s: Seq<char>| nonempty_set(fs.deep_view()).contains(s)
                    implies nonempty_prefix(fs@, n as int).contains(s) by {
                    let j = choose|j: int|
                        0 <= j < fs.deep_view().len() && fs.deep_view()[j] == s;
                    assert(fs@[j]@ == s);
                };
            };
        }
    }

    /// Insert every non-empty suffix that `src`'s tokens request on the
    /// dependency known as `n1` or as `n2`.
    pub fn add_enabled_suffixes(&mut self, src: &Demand, n1: &String, n2: &String)
        requires
            old(self).wf(),
        ensures
            final(self).wf(),
            final(self)@.features == old(self)@.features + suffixes_for(src@, n1@)
                + suffixes_for(src@, n2@),
            final(self)@.reqs == old(self)@.reqs,
    {
        let ghost orig: Set<Seq<char>> = self@.features;
        let n = src.features.items.len();
        let mut i: usize = 0;
        while i < n
            invariant
                n == src.features.items@.len(),
                i <= n,
                self.wf(),
                self@.reqs == old(self)@.reqs,
                self@.features == orig + suffix_prefix(src.features.items@, i as int, n1@, n2@),
            decreases n - i,
        {
            let ghost items = src.features.items@;
            let ghost fv = items[i as int]@;
            let h = token_head(src.features.items[i].as_str());
            if h.eq(n1) || h.eq(n2) {
                match token_rest(src.features.items[i].as_str()) {
                    Some(t) => {
                        if !t.as_str().is_empty() {
                            proof {
                                assert(t@ == token_suffix(fv));
                            }
                            self.features.insert(t);
                        }
                    },
                    None => {},
                }
            }
            proof {
                assert(self@.features =~= orig + suffix_prefix(items, i as int + 1, n1@, n2@))
                    by {
                    assert forall|s: Seq<char>|
                        suffix_prefix(items, i as int + 1, n1@, n2@).contains(s)
                            implies (suffix_prefix(items, i as int, n1@, n2@).contains(s) || (
                        s == token_suffix(fv) && s.len() > 0 && (token_name(fv) == n1@
                            || token_name(fv) == n2@))) by {
                        let j = choose|j: int|
                            0 <= j < i + 1 && j < items.len() && (token_name(items[j]@) == n1@
                                || token_name(items[j]@) == n2@) && token_suffix(items[j]@)
                                == s && s.len() > 0;
                        if j < i {
                            assert(suffix_prefix(items, i as int, n1@, n2@).contains(s));
                        }
                    };
                    if (token_name(fv) == n1@ || token_name(fv) == n2@) && token_suffix(
                        fv,
                    ).len() > 0 {
                        assert(suffix_prefix(items, i as int + 1, n1@, n2@).contains(
                            token_suffix(fv),
                        ));
                        assert(token_suffix(fv).len() > 0 ==> slash_index(fv) < fv.len());
                    }
                };
            }
            i += 1;
        }
        proof {
            let items = src.features.items@;
            assert(suffix_prefix(items, n as int, n1@, n2@) =~= suffixes_for(src@, n1@)
                + suffixes_for(src@, n2@)) by {
                assert forall|s: Seq<char>|
                    suffix_prefix(items, n as int, n1@, n2@).contains(s) implies (suffixes_for(
                    src@,
                    n1@,
                ) + suffixes_for(src@, n2@)).contains(s) by {
                    let j = choose|j: int|
                        0 <= j < n && j < items.len() && (token_name(items[j]@) == n1@
                            || token_name(items[j]@) == n2@) && token_suffix(items[j]@) == s
                            && s.len() > 0;
                    assert(src@.features.contains(items[j]@));
                };
                assert forall|s: Seq<char>|
                    (suffixes_for(src@, n1@) + suffixes_for(src@, n2@)).contains(s)
                        implies suffix_prefix(items, n as int, n1@, n2@).contains(s) by {
                    if suffixes_for(src@, n1@).contains(s) {
                        let f = choose|f: Seq<char>|
                            src@.features.contains(f) && token_name(f) == n1@ && token_suffix(
                                f,
                            ) == s;
                        let j = choose|j: int| 0 <= j < items.len() && items[j]@ == f;
                        assert(token_suffix(items[j]@) == s);
                    } else {
                        let f = choose|f: Seq<char>|
                            src@.features.contains(f) && token_name(f) == n2@ && token_suffix(
                                f,
                            ) == s;
                        let j = choose|j: int| 0 <= j < items.len() && items[j]@ == f;
                        assert(token_suffix(items[j]@) == s);
                    }
                };
            };
        }
    }
}

} // verus!
