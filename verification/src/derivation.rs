//! Dependency derivation: given one package's delta demand and its cached
//! version records, compute the demand that the matching records' active
//! dependency edges place on further packages.
//!
//! A record takes part iff its version satisfies at least one range of the
//! demand (OR semantics). `dev` edges are always excluded; an optional edge
//! is excluded unless a feature token enables it under its declared name or
//! its resolved lookup key. All contributions to one lookup key are unioned
//! before they are handed on, one accumulated demand per key.

use vstd::prelude::*;
use crate::demand::{Demand, DemandView, enabled, suffixes_for, nonempty_set, empty_demand};
use crate::records::{Crate, CrateView, DepView, DepKind, records_view};
use crate::demand_map::DemandMap;
use crate::error::{ExploreError, ErrorView};
use crate::semver_api::{parse_version, parse_requirement, semver_error_text, version_ok,
    req_ok, req_match_total};

verus! {

/// The registry lookup key of an edge: its rename if present, else its name.
pub open spec fn dep_key(e: DepView) -> Seq<char> {
    match e.package {
        Some(p) => p,
        None => e.name,
    }
}

/// Whether the edge takes part in exploration under the demand: never for
/// `dev` edges; for optional edges only when a feature token enables the
/// edge's declared name or its resolved lookup key.
pub open spec fn edge_active(w: DemandView, e: DepView) -> bool {
    e.kind != DepKind::Dev && (!e.optional || enabled(w, e.name) || enabled(w, dep_key(e)))
}

/// The literal `default` feature token.
pub open spec fn default_token() -> Seq<char> {
    "default"@
}

/// The feature tokens one active edge contributes to its dependency's
/// demand: `default` if the edge requests default features, the non-empty
/// entries of the edge's own feature list, and, for an enabled optional
/// edge, the suffixes of the tokens that enabled it.
pub open spec fn edge_features(w: DemandView, e: DepView) -> Set<Seq<char>> {
    (if e.default_features {
        Set::<Seq<char>>::empty().insert(default_token())
    } else {
        Set::<Seq<char>>::empty()
    }) + nonempty_set(e.features) + (if e.optional {
        suffixes_for(w, e.name) + suffixes_for(w, dep_key(e))
    } else {
        Set::<Seq<char>>::empty()
    })
}

/// Whether the record's version satisfies at least one range of the demand.
pub open spec fn selected(w: DemandView, c: CrateView) -> bool {
    exists|r: Seq<char>| w.reqs.contains(r) && req_match_total(r, c.vers)
}

/// Fold one active edge into the accumulated per-key demand map.
pub open spec fn upsert_edge(
    m: Map<Seq<char>, DemandView>,
    w: DemandView,
    e: DepView,
) -> Map<Seq<char>, DemandView> {
    let k = dep_key(e);
    let prev = if m.contains_key(k) {
        m[k]
    } else {
        empty_demand()
    };
    m.insert(
        k,
        DemandView {
            features: prev.features + edge_features(w, e),
            reqs: prev.reqs.insert(e.req),
        },
    )
}

/// Fold the first `n` edges of a record into the map.
pub open spec fn add_deps(
    m: Map<Seq<char>, DemandView>,
    w: DemandView,
    ds: Seq<DepView>,
    n: int,
) -> Map<Seq<char>, DemandView>
    decreases n,
{
    if n <= 0 {
        m
    } else {
        let m1 = add_deps(m, w, ds, n - 1);
        if edge_active(w, ds[n - 1]) {
            upsert_edge(m1, w, ds[n - 1])
        } else {
            m1
        }
    }
}

/// Fold one record into the map: all its edges if it is selected, nothing
/// otherwise.
pub open spec fn add_record(
    m: Map<Seq<char>, DemandView>,
    w: DemandView,
    c: CrateView,
) -> Map<Seq<char>, DemandView> {
    if selected(w, c) {
        add_deps(m, w, c.deps, c.deps.len() as int)
    } else {
        m
    }
}

/// Fold the first `n` records.
pub open spec fn derive_upto(
    w: DemandView,
    rs: Seq<CrateView>,
    n: int,
) -> Map<Seq<char>, DemandView>
    decreases n,
{
    if n <= 0 {
        Map::empty()
    } else {
        add_record(derive_upto(w, rs, n - 1), w, rs[n - 1])
    }
}

/// The accumulated demand each dependency lookup key receives from one
/// derivation pass of `w` against the records `rs`.
pub open spec fn derive_map(w: DemandView, rs: Seq<CrateView>) -> Map<Seq<char>, DemandView> {
    derive_upto(w, rs, rs.len() as int)
}

/// The first failing edge of a record, scanning from index `i`: an active
/// edge whose range expression does not parse.
pub open spec fn edge_error_from(w: DemandView, c: CrateView, i: int) -> Option<ErrorView>
    decreases c.deps.len() - i,
{
    if i < 0 || i >= c.deps.len() {
        None
    } else if edge_active(w, c.deps[i]) && !req_ok(c.deps[i].req) {
        Some(
            ErrorView::InvalidVersionRequirement {
                package: c.name,
                dep: c.deps[i].name,
                req: c.deps[i].req,
            },
        )
    } else {
        edge_error_from(w, c, i + 1)
    }
}

/// What fails in one record: an unparsable version is fatal whether or not
/// the record is selected; range expressions are only parsed on the active
/// edges of selected records.
pub open spec fn record_error(w: DemandView, c: CrateView) -> Option<ErrorView> {
    if !version_ok(c.vers) {
        Some(ErrorView::InvalidSemver { package: c.name, vers: c.vers })
    } else if selected(w, c) {
        edge_error_from(w, c, 0)
    } else {
        None
    }
}

/// The first failing record, scanning from index `i`.
pub open spec fn first_error_from(w: DemandView, rs: Seq<CrateView>, i: int) -> Option<ErrorView>
    decreases rs.len() - i,
{
    if i < 0 || i >= rs.len() {
        None
    } else if record_error(w, rs[i]) is Some {
        record_error(w, rs[i])
    } else {
        first_error_from(w, rs, i + 1)
    }
}

/// The error one derivation pass reports, if any: the first failure in
/// record order, then edge order.
pub open spec fn derive_error(w: DemandView, rs: Seq<CrateView>) -> Option<ErrorView> {
    first_error_from(w, rs, 0)
}

proof fn lemma_first_error_skip(w: DemandView, rs: Seq<CrateView>, i: int)
    requires
        0 <= i <= rs.len(),
        forall|j: int| 0 <= j < i ==> record_error(w, rs[j]) is None,
    ensures
        first_error_from(w, rs, 0) == first_error_from(w, rs, i),
    decreases i,
{
    if i > 0 {
        lemma_first_error_skip(w, rs, i - 1);
        assert(record_error(w, rs[i - 1]) is None);
    }
}

proof fn lemma_edge_error_skip(w: DemandView, c: CrateView, i: int)
    requires
        0 <= i <= c.deps.len(),
        forall|j: int|
            0 <= j < i ==> !(edge_active(w, c.deps[j]) && !req_ok(c.deps[j].req)),
    ensures
        edge_error_from(w, c, 0) == edge_error_from(w, c, i),
    decreases i,
{
    if i > 0 {
        lemma_edge_error_skip(w, c, i - 1);
    }
}

proof fn lemma_edge_error_kind(w: DemandView, c: CrateView, i: int)
    ensures
        edge_error_from(w, c, i) matches Some(e) ==> e is InvalidVersionRequirement,
    decreases c.deps.len() - i,
{
    if 0 <= i < c.deps.len() {
        lemma_edge_error_kind(w, c, i + 1);
    }
}

/// Derivation itself only fails on an unparsable version or range string.
pub proof fn lemma_derive_error_kind(w: DemandView, rs: Seq<CrateView>, i: int)
    ensures
        first_error_from(w, rs, i) matches Some(e) ==> crate::error::is_derivation_error(e),
    decreases rs.len() - i,
{
    if 0 <= i < rs.len() {
        lemma_edge_error_kind(w, rs[i], 0);
        lemma_derive_error_kind(w, rs, i + 1);
    }
}

/// A version satisfying any one range of the demand selects its record.
pub proof fn lemma_selected_by_any_range(w: DemandView, c: CrateView, r: Seq<char>)
    requires
        w.reqs.contains(r),
        req_match_total(r, c.vers),
    ensures
        selected(w, c),
{
}

/// A record whose version satisfies none of the ranges contributes nothing.
pub proof fn lemma_unselected_excluded(
    m: Map<Seq<char>, DemandView>,
    w: DemandView,
    c: CrateView,
)
    requires
        forall|r: Seq<char>| w.reqs.contains(r) ==> !req_match_total(r, c.vers),
    ensures
        add_record(m, w, c) == m,
{
    if selected(w, c) {
        let r = choose|r: Seq<char>| w.reqs.contains(r) && req_match_total(r, c.vers);
        assert(false);
    }
}

/// `dev` edges are excluded whatever the demand.
pub proof fn lemma_dev_edges_inactive(w: DemandView, e: DepView)
    requires
        e.kind == DepKind::Dev,
    ensures
        !edge_active(w, e),
{
}

/// An optional edge is excluded unless a feature token enables its declared
/// name or its resolved lookup key.
pub proof fn lemma_optional_needs_token(w: DemandView, e: DepView)
    requires
        e.optional,
        !enabled(w, e.name),
        !enabled(w, dep_key(e)),
    ensures
        !edge_active(w, e),
{
}

/// An edge with `default_features` injects the `default` token into its
/// dependency's derived demand.
pub proof fn lemma_default_features_token(w: DemandView, e: DepView)
    requires
        e.default_features,
    ensures
        edge_features(w, e).contains(default_token()),
        upsert_edge(Map::empty(), w, e)[dep_key(e)].features.contains(default_token()),
{
    assert(Set::<Seq<char>>::empty().insert(default_token()).contains(default_token()));
}

/// An edge without `default_features` injects `default` only if its own
/// feature list or an enabling token's suffix spells it out.
pub proof fn lemma_no_default_injected(w: DemandView, e: DepView)
    requires
        !e.default_features,
        !nonempty_set(e.features).contains(default_token()),
        e.optional ==> !suffixes_for(w, e.name).contains(default_token()) && !suffixes_for(
            w,
            dep_key(e),
        ).contains(default_token()),
    ensures
        !edge_features(w, e).contains(default_token()),
{
}

/// One derivation pass: the accumulated demand of every dependency lookup
/// key reached by the matching records' active edges, or the first failure.
pub fn derive_demands(wants: &Demand, versions: &Vec<Crate>) -> (r: Result<
    DemandMap,
    ExploreError,
>)
    requires
        wants.wf(),
    ensures
        match r {
            Ok(m) => {
                &&& m.wf()
                &&& m@ == derive_map(wants@, records_view(versions@))
                &&& derive_error(wants@, records_view(versions@)) is None
            },
            Err(e) => derive_error(wants@, records_view(versions@)) == Some(e@),
        },
{
    let ghost rs = records_view(versions@);
    let mut out = DemandMap::new();
    let nv = versions.len();
    let mut vi: usize = 0;
    while vi < nv
        invariant
            wants.wf(),
            nv == versions@.len(),
            vi <= nv,
            out.wf(),
            rs == records_view(versions@),
            out@ == derive_upto(wants@, rs, vi as int),
            forall|j: int| 0 <= j < vi ==> record_error(wants@, rs[j]) is None,
        decreases nv - vi,
    {
        let ghost c = rs[vi as int];
        let v = &versions[vi];
        proof {
            assert(c == v@);
        }
        match parse_version(v.vers.as_str()) {
            Err(pe) => {
                let detail = semver_error_text(&pe);
                proof {
                    lemma_first_error_skip(wants@, rs, vi as int);
                }
                return Err(
                    ExploreError::InvalidSemver {
                        package: v.name.clone(),
                        vers: v.vers.clone(),
                        detail,
                    },
                );
            },
            Ok(_) => {},
        }
        if wants.matches_version(&v.vers) {
            proof {
                assert(selected(wants@, c));
            }
            let nd = v.deps.len();
            let mut di: usize = 0;
            while di < nd
                invariant
                    wants.wf(),
                    nv == versions@.len(),
                    vi < nv,
                    rs == records_view(versions@),
                    c == rs[vi as int],
                    c == versions@[vi as int]@,
                    nd == c.deps.len(),
                    di <= nd,
                    out.wf(),
                    version_ok(c.vers),
                    selected(wants@, c),
                    out@ == add_deps(derive_upto(wants@, rs, vi as int), wants@, c.deps, di as int),
                    forall|j: int| 0 <= j < vi ==> record_error(wants@, rs[j]) is None,
                    forall|j: int|
                        0 <= j < di ==> !(edge_active(wants@, c.deps[j]) && !req_ok(
                            c.deps[j].req,
                        )),
                decreases nd - di,
            {
                let d = &versions[vi].deps[di];
                let ghost e = c.deps[di as int];
                proof {
                    assert(e == versions@[vi as int].deps@[di as int]@);
                }
                let key: String = match &d.package {
                    Some(p) => p.clone(),
                    None => d.name.clone(),
                };
                proof {
                    assert(key@ == dep_key(e));
                }
                let active: bool = if d.kind == DepKind::Dev {
                    false
                } else if !d.optional {
                    true
                } else {
                    wants.enables(&d.name) || wants.enables(&key)
                };
                proof {
                    assert(active == edge_active(wants@, e));
                }
                if active {
                    match parse_requirement(d.req.as_str()) {
                        Err(pe) => {
                            let detail = semver_error_text(&pe);
                            proof {
                                assert(edge_error_from(wants@, c, di as int) == Some(
                                    ErrorView::InvalidVersionRequirement {
                                        package: c.name,
                                        dep: e.name,
                                        req: e.req,
                                    },
                                ));
                                lemma_edge_error_skip(wants@, c, di as int);
                                lemma_first_error_skip(wants@, rs, vi as int);
                            }
                            return Err(
                                ExploreError::InvalidVersionRequirement {
                                    package: versions[vi].name.clone(),
                                    dep: d.name.clone(),
                                    req: d.req.clone(),
                                    detail,
                                },
                            );
                        },
                        Ok(_) => {},
                    }
                    let ghost m1 = out@;
                    let ghost prevd = if m1.contains_key(key@) {
                        m1[key@]
                    } else {
                        empty_demand()
                    };
                    let mut cur: Demand = match out.remove(&key) {
                        Some(x) => x,
                        None => Demand::empty(),
                    };
                    proof {
                        assert(cur@ == prevd);
                    }
                    cur.add_req(d.req.clone());
                    if d.default_features {
                        cur.add_feature(default_literal());
                    }
                    cur.add_nonempty_features(&d.features);
                    if d.optional {
                        cur.add_enabled_suffixes(wants, &d.name, &key);
                    }
                    proof {
                        assert(cur@.reqs == prevd.reqs.insert(e.req));
                        assert(cur@.features =~= prevd.features + edge_features(wants@, e)) by {
                            assert(e.features == d.features.deep_view());
                            if d.default_features {
                                assert(cur@.features =~= prevd.features.insert(default_token())
                                    + nonempty_set(e.features) + (if e.optional {
                                    suffixes_for(wants@, e.name) + suffixes_for(
                                        wants@,
                                        dep_key(e),
                                    )
                                } else {
                                    Set::<Seq<char>>::empty()
                                }));
                            }
                        };
                    }
                    out.insert(key, cur);
                    proof {
                        assert(out@ =~= upsert_edge(m1, wants@, e)) by {
                            assert(out@ == m1.remove(dep_key(e)).insert(dep_key(e), cur@));
                            assert(cur@ =~= DemandView {
                                features: prevd.features + edge_features(wants@, e),
                                reqs: prevd.reqs.insert(e.req),
                            });
                        };
                        assert(out@ == add_deps(
                            derive_upto(wants@, rs, vi as int),
                            wants@,
                            c.deps,
                            di as int + 1,
                        ));
                    }
                } else {
                    proof {
                        assert(out@ == add_deps(
                            derive_upto(wants@, rs, vi as int),
                            wants@,
                            c.deps,
                            di as int + 1,
                        ));
                    }
                }
                di += 1;
            }
            proof {
                lemma_edge_error_skip(wants@, c, nd as int);
                assert(record_error(wants@, c) is None);
                assert(derive_upto(wants@, rs, vi as int + 1) == add_record(
                    derive_upto(wants@, rs, vi as int),
                    wants@,
                    c,
                ));
                assert(out@ == derive_upto(wants@, rs, vi as int + 1));
            }
        } else {
            proof {
                if selected(wants@, c) {
                    let r = choose|r: Seq<char>|
                        wants@.reqs.contains(r) && req_match_total(r, c.vers);
                    assert(false);
                }
                assert(record_error(wants@, c) is None);
                assert(derive_upto(wants@, rs, vi as int + 1) == add_record(
                    derive_upto(wants@, rs, vi as int),
                    wants@,
                    c,
                ));
                assert(out@ == derive_upto(wants@, rs, vi as int + 1));
            }
        }
        vi += 1;
    }
    proof {
        lemma_first_error_skip(wants@, rs, nv as int);
        assert(out@ == derive_map(wants@, rs));
    }
    Ok(out)
}

/// The literal `default` feature token as a string.
fn default_literal() -> (s: String)
    ensures
        s@ == default_token(),
{
    "default".to_owned()
}

} // verus!
