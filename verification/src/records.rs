//! The package-version record and dependency-edge record shapes consumed
//! from the registry, as plain values. One record is one immutable row for
//! one `(name, version)` pair; it is created once per fetch response line
//! and held unchanged in the cache for the rest of the exploration.

use vstd::prelude::*;

verus! {

/// The kind of a dependency edge. `Dev` edges are always excluded from
/// exploration; `Build` and absent kinds are treated as `Normal`.
#[derive(Clone, Copy, PartialEq, Eq, Structural, Debug)]
pub enum DepKind {
    Normal,
    Dev,
    Build,
}

/// One dependency declared by a package-version record.
#[derive(Debug)]
pub struct Dep {
    /// Name of the dependency as declared by the depending package.
    pub name: String,
    /// Alternate registry lookup key when the dependency is renamed.
    pub package: Option<String>,
    /// Semver range expression the edge places on the dependency.
    pub req: String,
    /// Extra feature tokens to enable on the dependency.
    pub features: Vec<String>,
    /// Inactive unless explicitly enabled by a feature token.
    pub optional: bool,
    /// Whether to request the dependency's `default` feature.
    pub default_features: bool,
    /// Platform restriction; unused by resolution.
    pub target: Option<String>,
    pub kind: DepKind,
}

/// Ghost image of a [`Dep`].
#[verifier::ext_equal]
pub struct DepView {
    pub name: Seq<char>,
    pub package: Option<Seq<char>>,
    pub req: Seq<char>,
    pub features: Seq<Seq<char>>,
    pub optional: bool,
    pub default_features: bool,
    pub target: Option<Seq<char>>,
    pub kind: DepKind,
}

impl View for Dep {
    type V = DepView;

    open spec fn view(&self) -> DepView {
        DepView {
            name: self.name@,
            package: self.package.deep_view(),
            req: self.req@,
            features: self.features.deep_view(),
            optional: self.optional,
            default_features: self.default_features,
            target: self.target.deep_view(),
            kind: self.kind,
        }
    }
}

/// One immutable row from the registry for one `(name, version)` pair.
#[derive(Debug)]
pub struct Crate {
    pub name: String,
    /// Semver version string.
    pub vers: String,
    /// Declared dependency edges, in declaration order.
    pub deps: Vec<Dep>,
    /// Metadata checksum; unused by resolution.
    pub cksum: String,
    /// The package's own feature-expansion map, as `(feature, expansion)`
    /// pairs; parsed and retained but not consulted by resolution.
    pub features: Vec<(String, Vec<String>)>,
    /// Whether the version was yanked; unused by resolution.
    pub yanked: bool,
}

/// Ghost image of a [`Crate`].
#[verifier::ext_equal]
pub struct CrateView {
    pub name: Seq<char>,
    pub vers: Seq<char>,
    pub deps: Seq<DepView>,
    pub cksum: Seq<char>,
    pub features: Seq<(Seq<char>, Seq<Seq<char>>)>,
    pub yanked: bool,
}

impl View for Crate {
    type V = CrateView;

    open spec fn view(&self) -> CrateView {
        CrateView {
            name: self.name@,
            vers: self.vers@,
            deps: self.deps@.map_values(|d: Dep| d@),
            cksum: self.cksum@,
            features: self.features.deep_view(),
            yanked: self.yanked,
        }
    }
}

/// The views of a sequence of records.
pub open spec fn records_view(s: Seq<Crate>) -> Seq<CrateView> {
    s.map_values(|c: Crate| c@)
}

fn clone_string_vec(v: &Vec<String>) -> (r: Vec<String>)
    ensures
        r@ == v@,
{
    let n = v.len();
    let mut r: Vec<String> = Vec::new();
    let mut i: usize = 0;
    while i < n
        invariant
            n == v@.len(),
            i <= n,
            r@.len() == i,
            forall|j: int| 0 <= j < i ==> r@[j] == v@[j],
        decreases n - i,
    {
        r.push(v[i].clone());
        i += 1;
    }
    proof {
        assert(r@ =~= v@);
    }
    r
}

fn clone_opt_string(v: &Option<String>) -> (r: Option<String>)
    ensures
        r == *v,
{
    match v {
        Some(p) => Some(p.clone()),
        None => None,
    }
}

impl Dep {
    /// A fresh edge with the same contents.
    pub fn duplicate(&self) -> (r: Dep)
        ensures
            r@ == self@,
    {
        let r = Dep {
            name: self.name.clone(),
            package: clone_opt_string(&self.package),
            req: self.req.clone(),
            features: clone_string_vec(&self.features),
            optional: self.optional,
            default_features: self.default_features,
            target: clone_opt_string(&self.target),
            kind: self.kind,
        };
        proof {
            assert(r@ =~= self@);
        }
        r
    }
}

impl Crate {
    /// A fresh record with the same contents.
    pub fn duplicate(&self) -> (r: Crate)
        ensures
            r@ == self@,
    {
        let nd = self.deps.len();
        let mut deps: Vec<Dep> = Vec::new();
        let mut i: usize = 0;
        while i < nd
            invariant
                nd == self.deps@.len(),
                i <= nd,
                deps@.len() == i,
                forall|j: int| 0 <= j < i ==> deps@[j]@ == self.deps@[j]@,
            decreases nd - i,
        {
            deps.push(self.deps[i].duplicate());
            i += 1;
        }
        let nf = self.features.len();
        let mut feats: Vec<(String, Vec<String>)> = Vec::new();
        let mut k: usize = 0;
        while k < nf
            invariant
                nf == self.features@.len(),
                k <= nf,
                feats@.len() == k,
                forall|j: int|
                    0 <= j < k ==> feats@[j].0 == self.features@[j].0 && feats@[j].1@
                        == self.features@[j].1@,
            decreases nf - k,
        {
            let pair = (self.features[k].0.clone(), clone_string_vec(&self.features[k].1));
            feats.push(pair);
            k += 1;
        }
        let r = Crate {
            name: self.name.clone(),
            vers: self.vers.clone(),
            deps,
            cksum: self.cksum.clone(),
            features: feats,
            yanked: self.yanked,
        };
        proof {
            assert(r@.deps =~= self@.deps);
            assert(r@.features =~= self@.features) by {
                assert forall|j: int| 0 <= j < nf implies r.features.deep_view()[j]
                    == self.features.deep_view()[j] by {
                    assert(r.features@[j].0@ == self.features@[j].0@);
                    assert(r.features@[j].1.deep_view() =~= self.features@[j].1.deep_view());
                };
            };
            assert(r@ =~= self@);
        }
        r
    }
}

/// Fresh records with the same contents.
pub fn duplicate_records(v: &Vec<Crate>) -> (r: Vec<Crate>)
    ensures
        records_view(r@) == records_view(v@),
{
    let n = v.len();
    let mut r: Vec<Crate> = Vec::new();
    let mut i: usize = 0;
    while i < n
        invariant
            n == v@.len(),
            i <= n,
            r@.len() == i,
            forall|j: int| 0 <= j < i ==> r@[j]@ == v@[j]@,
        decreases n - i,
    {
        r.push(v[i].duplicate());
        i += 1;
    }
    proof {
        assert(records_view(r@) =~= records_view(v@));
    }
    r
}

} // verus!
