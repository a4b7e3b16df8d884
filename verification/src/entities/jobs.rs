//! Jobs: validation of a candidate asset set, resolution into a graph, and
//! level-ordered execution.

use vstd::prelude::*;

use crate::entities::asset::Asset;
use crate::errors::GraphError;
use crate::errors::JobError;
use crate::graph::graph::entry_views;
use crate::graph::graph::NodeLevel;
use crate::graph::graph::Graph;
use crate::graph::node::Node;
use crate::keys::contains_key_string;
use crate::traits::NodeContent;

verus! {

use vstd::multiset::Multiset;
use vstd::string::StringExecFns;

broadcast use {vstd::seq_lib::group_to_multiset_ensures, vstd::multiset::group_multiset_axioms};

/// The flat identifiers of a sequence of assets, in order.
pub open spec fn spec_asset_ids<F, R>(assets: Seq<Asset<F, R>>) -> Seq<Seq<char>> where F: Fn() -> R {
    Seq::new(assets.len(), |i: int| assets[i].spec_id())
}

/// All declared dependency identifiers of a sequence of assets, in order.
pub open spec fn spec_dep_union<F, R>(assets: Seq<Asset<F, R>>) -> Seq<Seq<char>> where F: Fn() -> R
    decreases assets.len(),
{
    if assets.len() == 0 {
        Seq::empty()
    } else {
        spec_dep_union(assets.drop_last()) + assets.last().spec_dep_ids()
    }
}

/// The identifiers among `deps` that `ids` lacks, each kept once, in order
/// of first occurrence.
pub open spec fn spec_missing_from(deps: Seq<Seq<char>>, ids: Seq<Seq<char>>) -> Seq<Seq<char>>
    decreases deps.len(),
{
    if deps.len() == 0 {
        Seq::empty()
    } else {
        let rest = spec_missing_from(deps.drop_last(), ids);
        if ids.contains(deps.last()) || rest.contains(deps.last()) {
            rest
        } else {
            rest.push(deps.last())
        }
    }
}

/// Whether every declared dependency of every asset names another asset of
/// the same set.
pub open spec fn spec_deps_satisfied<F, R>(assets: Seq<Asset<F, R>>) -> bool where F: Fn() -> R {
    forall|i: int, j: int|
        0 <= i < assets.len() && 0 <= j < assets[i].spec_dep_ids().len() ==> spec_asset_ids(
            assets,
        ).contains(#[trigger] assets[i].spec_dep_ids()[j])
}

/// Whether the assets' flat identifiers are pairwise distinct.
pub open spec fn spec_ids_unique<F, R>(assets: Seq<Asset<F, R>>) -> bool where F: Fn() -> R {
    forall|i: int, j: int|
        0 <= i < j < assets.len() ==> spec_asset_ids(assets)[i] != spec_asset_ids(assets)[j]
}

/// Whether asset `i` of `s` depends on no asset of `s`.
pub open spec fn spec_free_in<F, R>(s: Seq<Asset<F, R>>, i: int) -> bool where F: Fn() -> R {
    forall|j: int|
        0 <= j < s.len() ==> !s[i].spec_dep_ids().contains(#[trigger] s[j].spec_id())
}

/// Whether some asset of `s` depends on no asset of `s`.
pub open spec fn spec_has_free<F, R>(s: Seq<Asset<F, R>>) -> bool where F: Fn() -> R {
    exists|i: int| 0 <= i < s.len() && spec_free_in(s, i)
}

/// Whether the dependency relation on the assets is acyclic: every
/// non-empty sub-collection contains an asset that depends on no member of
/// that sub-collection.
pub open spec fn spec_acyclic<F, R>(assets: Seq<Asset<F, R>>) -> bool where F: Fn() -> R {
    forall|s: Seq<Asset<F, R>>|
        s.len() > 0 && (#[trigger] s.to_multiset()).subset_of(assets.to_multiset())
            ==> spec_has_free(s)
}

/// An empty missing list means exactly that every dependency is satisfied.
pub proof fn lemma_missing_empty(deps: Seq<Seq<char>>, ids: Seq<Seq<char>>)
    ensures
        (spec_missing_from(deps, ids).len() == 0) <==> (forall|j: int|
            0 <= j < deps.len() ==> ids.contains(#[trigger] deps[j])),
    decreases deps.len(),
{
    if deps.len() > 0 {
        lemma_missing_empty(deps.drop_last(), ids);
        let rest = spec_missing_from(deps.drop_last(), ids);
        assert(forall|j: int| 0 <= j < deps.len() - 1 ==> deps.drop_last()[j] == #[trigger] deps[j]);
        if spec_missing_from(deps, ids).len() == 0 {
            assert(rest.len() == 0);
            assert(!rest.contains(deps.last()));
            assert(ids.contains(deps.last()));
        }
    }
}

/// A named collection of assets, prior to validation and resolution.
#[verifier::reject_recursive_types(R)]
pub struct UnresolvedJob<F, R> where F: Fn() -> R {
    name: String,
    assets: Vec<Asset<F, R>>,
}

impl<F, R> UnresolvedJob<F, R> where F: Fn() -> R {
    pub closed spec fn spec_name(&self) -> Seq<char> {
        self.name@
    }

    pub closed spec fn spec_assets(&self) -> Seq<Asset<F, R>> {
        self.assets@
    }

    pub fn new(name: String, assets: Vec<Asset<F, R>>) -> (r: Self)
        ensures
            r.spec_name() == name@,
            r.spec_assets() == assets@,
    {
        UnresolvedJob { name, assets }
    }

    pub fn name(&self) -> (r: &String)
        ensures
            r@ == self.spec_name(),
    {
        &self.name
    }

    pub fn assets(&self) -> (r: &Vec<Asset<F, R>>)
        ensures
            r@ == self.spec_assets(),
    {
        &self.assets
    }

    /// Checks that every declared dependency of every asset names another
    /// asset of this job. On failure, reports the job's name and exactly
    /// the missing identifiers, each once, in order of first occurrence.
    pub fn check_dependencies(&self) -> (r: Result<(), JobError>)
        ensures
            r is Ok <==> spec_deps_satisfied(self.spec_assets()),
            match r {
                Ok(()) => true,
                Err(JobError::MissingDependency { job, keys }) => {
                    &&& job@ == self.spec_name()
                    &&& keys.deep_view() == spec_missing_from(
                        spec_dep_union(self.spec_assets()),
                        spec_asset_ids(self.spec_assets()),
                    )
                    &&& keys.deep_view().len() > 0
                },
                Err(_) => false,
            },
    {
        let ghost all = self.spec_assets();
        let ghost idsv = spec_asset_ids(all);

        // The flat identifier of every asset of the job.
        let mut ids: Vec<String> = Vec::new();
        let mut i: usize = 0;
        proof {
            assert(ids.deep_view() =~= Seq::<Seq<char>>::empty());
            assert(idsv.take(0) =~= Seq::<Seq<char>>::empty());
        }
        while i < self.assets.len()
            invariant
                i <= all.len(),
                all == self.spec_assets(),
                idsv == spec_asset_ids(all),
                ids.deep_view() == idsv.take(i as int),
            decreases all.len() - i,
        {
            let ghost oldids = ids;
            let s = self.assets[i].id();
            let ghost sv = s;
            ids.push(s);
            proof {
                crate::keys::lemma_deep_view_push(oldids, ids, sv);
                assert(idsv.take(i as int + 1) =~= idsv.take(i as int).push(idsv[i as int]));
            }
            i += 1;
        }
        proof {
            assert(idsv.take(all.len() as int) =~= idsv);
        }

        // Every declared dependency identifier, in order.
        let mut deps: Vec<String> = Vec::new();
        let mut a: usize = 0;
        proof {
            assert(deps.deep_view() =~= Seq::<Seq<char>>::empty());
            assert(spec_dep_union(all.take(0)) =~= Seq::<Seq<char>>::empty());
            assert(all.take(0) =~= Seq::<Asset<F, R>>::empty());
        }
        while a < self.assets.len()
            invariant
                a <= all.len(),
                all == self.spec_assets(),
                deps.deep_view() == spec_dep_union(all.take(a as int)),
            decreases all.len() - a,
        {
            let mut own = self.assets[a].dependency_ids();
            let ghost ownv = own.deep_view();
            let mut d: usize = 0;
            proof {
                assert(ownv.take(0) =~= Seq::<Seq<char>>::empty());
                assert(deps.deep_view() + ownv.take(0) =~= deps.deep_view());
            }
            let ghost depsv0 = deps.deep_view();
            while d < own.len()
                invariant
                    d <= own@.len(),
                    ownv == own.deep_view(),
                    deps.deep_view() == depsv0 + ownv.take(d as int),
                decreases own@.len() - d,
            {
                let ghost olddeps = deps;
                let s = own[d].clone();
                let ghost sv = s;
                deps.push(s);
                proof {
                    crate::keys::lemma_deep_view_push(olddeps, deps, sv);
                    assert(ownv.take(d as int + 1) =~= ownv.take(d as int).push(ownv[d as int]));
                    assert(depsv0 + ownv.take(d as int).push(ownv[d as int]) =~= (depsv0
                        + ownv.take(d as int)).push(ownv[d as int]));
                }
                d += 1;
            }
            proof {
                assert(ownv.take(own@.len() as int) =~= ownv);
                let t1 = all.take(a as int + 1);
                assert(t1.drop_last() =~= all.take(a as int));
                assert(t1.last() == all[a as int]);
                assert(spec_dep_union(t1) == spec_dep_union(all.take(a as int))
                    + all[a as int].spec_dep_ids());
            }
            a += 1;
        }
        proof {
            assert(all.take(all.len() as int) =~= all);
        }

        // The missing identifiers: declared but matching no asset.
        let ghost unionv = spec_dep_union(all);
        let mut missing: Vec<String> = Vec::new();
        let mut m: usize = 0;
        proof {
            assert(missing.deep_view() =~= Seq::<Seq<char>>::empty());
            assert(unionv.take(0) =~= Seq::<Seq<char>>::empty());
        }
        while m < deps.len()
            invariant
                m <= deps@.len(),
                deps.deep_view() == unionv,
                ids.deep_view() == idsv,
                missing.deep_view() == spec_missing_from(unionv.take(m as int), idsv),
            decreases deps@.len() - m,
        {
            proof {
                let t1 = unionv.take(m as int + 1);
                assert(t1.drop_last() =~= unionv.take(m as int));
                assert(t1.last() == unionv[m as int]);
            }
            if !contains_key_string(&ids, &deps[m]) && !contains_key_string(&missing, &deps[m]) {
                let ghost oldmissing = missing;
                let s = deps[m].clone();
                let ghost sv = s;
                missing.push(s);
                proof {
                    crate::keys::lemma_deep_view_push(oldmissing, missing, sv);
                }
            }
            m += 1;
        }
        proof {
            assert(unionv.take(deps@.len() as int) =~= unionv);
        }

        if missing.len() > 0 {
            proof {
                lemma_missing_empty(unionv, idsv);
                lemma_dep_union_satisfied(all);
            }
            let job = self.name.clone();
            return Err(JobError::MissingDependency { job, keys: missing });
        }
        proof {
            lemma_missing_empty(unionv, idsv);
            lemma_dep_union_satisfied(all);
        }
        Ok(())
    }
}

/// Dependency `j` of asset `i` occurs in the dependency union.
pub proof fn lemma_dep_union_covers<F, R>(assets: Seq<Asset<F, R>>, i: int, j: int) where
    F: Fn() -> R,

    requires
        0 <= i < assets.len(),
        0 <= j < assets[i].spec_dep_ids().len(),
    ensures
        spec_dep_union(assets).contains(assets[i].spec_dep_ids()[j]),
    decreases assets.len(),
{
    let u = spec_dep_union(assets);
    let uf = spec_dep_union(assets.drop_last());
    if i == assets.len() - 1 {
        assert(u[uf.len() + j] == assets[i].spec_dep_ids()[j]);
    } else {
        lemma_dep_union_covers(assets.drop_last(), i, j);
        let p = choose|p: int| 0 <= p < uf.len() && uf[p] == assets[i].spec_dep_ids()[j];
        assert(u[p] == assets[i].spec_dep_ids()[j]);
    }
}

/// Every member of the dependency union is a dependency of some asset.
pub proof fn lemma_dep_union_origin<F, R>(assets: Seq<Asset<F, R>>, j: int) where F: Fn() -> R
    requires
        0 <= j < spec_dep_union(assets).len(),
    ensures
        exists|i: int, q: int|
            0 <= i < assets.len() && 0 <= q < assets[i].spec_dep_ids().len() && spec_dep_union(
                assets,
            )[j] == assets[i].spec_dep_ids()[q],
    decreases assets.len(),
{
    let u = spec_dep_union(assets);
    let uf = spec_dep_union(assets.drop_last());
    if j < uf.len() {
        let front = assets.drop_last();
        lemma_dep_union_origin(front, j);
        let (i, q) = choose|i: int, q: int|
            0 <= i < front.len() && 0 <= q < front[i].spec_dep_ids().len() && uf[j]
                == front[i].spec_dep_ids()[q];
        assert(assets[i] == front[i]);
        assert(u[j] == assets[i].spec_dep_ids()[q]);
    } else {
        let i = assets.len() - 1;
        assert(u[j] == assets[i].spec_dep_ids()[j - uf.len()]);
    }
}

/// A value with at least two occurrences in a sequence sits at two distinct
/// positions.
proof fn lemma_two_positions<A>(s: Seq<A>, v: A)
    requires
        s.to_multiset().count(v) >= 2,
    ensures
        exists|i: int, j: int| 0 <= i < j < s.len() && s[i] == v && s[j] == v,
{
    assert(s.to_multiset().contains(v));
    assert(s.contains(v));
    let i = choose|i: int| 0 <= i < s.len() && s[i] == v;
    let rest = s.remove(i);
    assert(rest.to_multiset() =~= s.to_multiset().remove(s[i]));
    assert(rest.to_multiset().count(v) >= 1);
    assert(rest.contains(v));
    let jr = choose|jr: int| 0 <= jr < rest.len() && rest[jr] == v;
    if jr < i {
        assert(s[jr] == rest[jr]);
        assert(0 <= jr < i < s.len() && s[jr] == v && s[i] == v);
    } else {
        assert(s[jr + 1] == rest[jr]);
        assert(0 <= i < jr + 1 < s.len() && s[i] == v && s[jr + 1] == v);
    }
}

/// Whether some declared dependency of the asset is not in the graph.
pub open spec fn spec_lacks_dep<F, R>(g: Graph<Asset<F, R>>, a: Asset<F, R>) -> bool where
    F: Fn() -> R,
 {
    exists|q: int|
        0 <= q < a.spec_dep_ids().len() && !g.contains_key(#[trigger] a.spec_dep_ids()[q])
}

/// Whether every declared dependency of the asset is already in the graph.
fn deps_in_graph<F, R>(g: &Graph<Asset<F, R>>, asset: &Asset<F, R>) -> (r: bool) where F: Fn() -> R
    ensures
        r ==> forall|q: int|
            0 <= q < asset.spec_dep_ids().len() ==> g.contains_key(
                #[trigger] asset.spec_dep_ids()[q],
            ),
        !r ==> spec_lacks_dep(*g, *asset),
{
    let deps = asset.dependency_ids();
    let mut q: usize = 0;
    while q < deps.len()
        invariant
            q <= deps@.len(),
            deps.deep_view() == asset.spec_dep_ids(),
            forall|t: int| 0 <= t < q ==> g.contains_key(#[trigger] asset.spec_dep_ids()[t]),
        decreases deps@.len() - q,
    {
        if !g.contains(deps[q].as_str()) {
            proof {
                assert((q as int) < asset.spec_dep_ids().len() && !g.contains_key(
                    asset.spec_dep_ids()[q as int],
                ));
            }
            return false;
        }
        q += 1;
    }
    true
}

/// Finds the first asset whose declared dependencies are all in the graph.
fn find_insertable<F, R>(g: &Graph<Asset<F, R>>, remaining: &Vec<Asset<F, R>>) -> (r: Option<
    usize,
>) where F: Fn() -> R
    ensures
        match r {
            Some(k) => {
                &&& k < remaining@.len()
                &&& forall|q: int|
                    0 <= q < remaining@[k as int].spec_dep_ids().len() ==> g.contains_key(
                        #[trigger] remaining@[k as int].spec_dep_ids()[q],
                    )
            },
            None => forall|t: int|
                0 <= t < remaining@.len() ==> spec_lacks_dep(*g, #[trigger] remaining@[t]),
        },
{
    let mut k: usize = 0;
    while k < remaining.len()
        invariant
            k <= remaining@.len(),
            forall|t: int| 0 <= t < k ==> spec_lacks_dep(*g, #[trigger] remaining@[t]),
        decreases remaining@.len() - k,
    {
        if deps_in_graph(g, &remaining[k]) {
            return Some(k);
        }
        k += 1;
    }
    None
}

/// Whether member `i` of `s` sits at the lowest level among the members.
spec fn spec_min_level_at<F, R>(g: Graph<Asset<F, R>>, s: Seq<Asset<F, R>>, i: int) -> bool where
    F: Fn() -> R,
 {
    forall|j: int|
        0 <= j < s.len() ==> (g.spec_level(s[i].spec_id()) as int) <= (g.spec_level(
            #[trigger] s[j].spec_id(),
        ) as int)
}

/// A non-empty asset collection has a member whose identifier sits at the
/// lowest level among them.
proof fn lemma_min_level_member<F, R>(g: Graph<Asset<F, R>>, s: Seq<Asset<F, R>>) where
    F: Fn() -> R,

    requires
        s.len() > 0,
    ensures
        exists|i: int| 0 <= i < s.len() && spec_min_level_at(g, s, i),
    decreases s.len(),
{
    let last = s.len() - 1;
    if s.len() == 1 {
        assert(spec_min_level_at(g, s, 0));
    } else {
        let front = s.drop_last();
        lemma_min_level_member(g, front);
        let i0 = choose|i0: int| 0 <= i0 < front.len() && spec_min_level_at(g, front, i0);
        assert(forall|j: int| 0 <= j < front.len() ==> front[j] == #[trigger] s[j]);
        if (g.spec_level(s[last].spec_id()) as int) < (g.spec_level(s[i0].spec_id()) as int) {
            assert forall|j: int|
                0 <= j < s.len() implies (g.spec_level(s[last].spec_id()) as int) <= (
            g.spec_level(#[trigger] s[j].spec_id()) as int) by {
                if j < last {
                    assert((g.spec_level(front[i0].spec_id()) as int) <= (g.spec_level(
                        front[j].spec_id(),
                    ) as int));
                }
            }
            assert(spec_min_level_at(g, s, last));
        } else {
            assert forall|j: int|
                0 <= j < s.len() implies (g.spec_level(s[i0].spec_id()) as int) <= (g.spec_level(
                #[trigger] s[j].spec_id(),
            ) as int) by {
                if j < last {
                    assert((g.spec_level(front[i0].spec_id()) as int) <= (g.spec_level(
                        front[j].spec_id(),
                    ) as int));
                }
            }
            assert(spec_min_level_at(g, s, i0));
        }
    }
}

/// When assets remain and none of them has all of its dependencies in the
/// graph, the dependency relation has a cycle.
proof fn lemma_stuck_means_cycle<F, R>(
    all: Seq<Asset<F, R>>,
    done: Seq<Asset<F, R>>,
    rem: Seq<Asset<F, R>>,
    g: Graph<Asset<F, R>>,
) where F: Fn() -> R
    requires
        spec_deps_satisfied(all),
        done.to_multiset().add(rem.to_multiset()) == all.to_multiset(),
        g.spec_keys() == spec_asset_ids(done),
        rem.len() > 0,
        forall|t: int| 0 <= t < rem.len() ==> spec_lacks_dep(g, #[trigger] rem[t]),
    ensures
        !spec_acyclic(all),
{
    if spec_acyclic(all) {
        assert forall|v: Asset<F, R>|
            #[trigger] rem.to_multiset().count(v) <= all.to_multiset().count(v) by {
            assert(all.to_multiset().count(v) == done.to_multiset().count(v)
                + rem.to_multiset().count(v));
        }
        assert(rem.to_multiset().subset_of(all.to_multiset()));
        assert(spec_has_free(rem));
        let f = choose|f: int| 0 <= f < rem.len() && spec_free_in(rem, f);
        assert(spec_lacks_dep(g, rem[f]));
        let q = choose|q: int|
            0 <= q < rem[f].spec_dep_ids().len() && !g.contains_key(
                #[trigger] rem[f].spec_dep_ids()[q],
            );
        let d = rem[f].spec_dep_ids()[q];
        // the free asset occurs in the full set, so its dependency names an
        // asset of the set
        assert(rem.to_multiset().count(rem[f]) >= 1);
        assert(all.to_multiset().count(rem[f]) >= 1);
        assert(all.contains(rem[f]));
        let i0 = choose|i0: int| 0 <= i0 < all.len() && all[i0] == rem[f];
        assert(spec_asset_ids(all).contains(all[i0].spec_dep_ids()[q]));
        let j0 = choose|j0: int|
            0 <= j0 < all.len() && spec_asset_ids(all)[j0] == all[i0].spec_dep_ids()[q];
        assert(all[j0].spec_id() == d);
        // that asset is either already in the graph or still remaining;
        // both contradict the choice of dependency and freeness
        assert(all.to_multiset().count(all[j0]) >= 1);
        if done.to_multiset().count(all[j0]) >= 1 {
            assert(done.contains(all[j0]));
            let p = choose|p: int| 0 <= p < done.len() && done[p] == all[j0];
            assert(spec_asset_ids(done)[p] == d);
            assert(g.contains_key(d));
        } else {
            assert(rem.to_multiset().count(all[j0]) >= 1);
            assert(rem.contains(all[j0]));
            let q2 = choose|q2: int| 0 <= q2 < rem.len() && rem[q2] == all[j0];
            assert(rem[q2].spec_id() == d);
            assert(!rem[f].spec_dep_ids().contains(rem[q2].spec_id()));
        }
    }
}

/// When an asset of the finished part and an asset of the remaining part
/// carry one identifier, the identifier occurs at two positions of the set.
proof fn lemma_shared_id<F, R>(
    all: Seq<Asset<F, R>>,
    done: Seq<Asset<F, R>>,
    rem: Seq<Asset<F, R>>,
    v1: Asset<F, R>,
    v2: Asset<F, R>,
) where F: Fn() -> R
    requires
        done.to_multiset().add(rem.to_multiset()) == all.to_multiset(),
        done.contains(v1),
        rem.contains(v2),
        v1.spec_id() == v2.spec_id(),
    ensures
        exists|i: int, j: int|
            0 <= i < j < all.len() && all[i].spec_id() == v1.spec_id() && all[j].spec_id()
                == v1.spec_id(),
        !spec_ids_unique(all),
{
    assert(done.to_multiset().count(v1) >= 1);
    assert(rem.to_multiset().count(v2) >= 1);
    if v1 == v2 {
        assert(all.to_multiset().count(v1) >= 2);
        lemma_two_positions(all, v1);
        let (i, j) = choose|i: int, j: int| 0 <= i < j < all.len() && all[i] == v1 && all[j] == v1;
        assert(all[i].spec_id() == v1.spec_id() && all[j].spec_id() == v1.spec_id());
    } else {
        assert(all.to_multiset().count(v1) >= 1);
        assert(all.to_multiset().count(v2) >= 1);
        assert(all.contains(v1));
        assert(all.contains(v2));
        let i = choose|i: int| 0 <= i < all.len() && all[i] == v1;
        let j = choose|j: int| 0 <= j < all.len() && all[j] == v2;
        assert(i != j);
        if i < j {
            assert(all[i].spec_id() == v1.spec_id() && all[j].spec_id() == v1.spec_id());
        } else {
            assert(all[j].spec_id() == v1.spec_id() && all[i].spec_id() == v1.spec_id());
        }
    }
    let (i, j) = choose|i: int, j: int|
        0 <= i < j < all.len() && all[i].spec_id() == v1.spec_id() && all[j].spec_id()
            == v1.spec_id();
    assert(spec_asset_ids(all)[i] == spec_asset_ids(all)[j]);
}

/// An immutable pairing of a name and a resolved graph, created only by
/// successful resolution.
pub struct Job<T: NodeContent> {
    name: String,
    graph: Graph<T>,
}

impl<F, R> UnresolvedJob<F, R> where F: Fn() -> R {
    /// Resolves the job: validates every dependency, then builds the graph
    /// by inserting assets only once all of their dependencies are present,
    /// so that every node sits strictly above all of its dependencies.
    ///
    /// Succeeds exactly on asset sets whose dependencies are all internally
    /// satisfied, whose identifiers are distinct, and whose dependency
    /// relation is acyclic.
    pub fn resolve(self) -> (r: Result<Job<Asset<F, R>>, JobError>)
        requires
            self.spec_assets().len() < u32::MAX as usize,
        ensures
            ({
                let all = self.spec_assets();
                let ids = spec_asset_ids(all);
                match r {
                    Ok(job) => {
                        &&& spec_deps_satisfied(all)
                        &&& spec_ids_unique(all)
                        &&& spec_acyclic(all)
                        &&& job.spec_name() == self.spec_name()
                        &&& job.spec_graph().wf()
                        &&& job.spec_graph().spec_keys().len() == all.len()
                        &&& forall|i: int|
                            0 <= i < all.len() ==> job.spec_graph().contains_key(#[trigger] ids[i])
                        &&& forall|k: Seq<char>|
                            #[trigger] job.spec_graph().contains_key(k) ==> ids.contains(k)
                        &&& forall|i: int|
                            0 <= i < all.len() ==> (#[trigger] job.spec_graph().spec_node(
                                ids[i],
                            )).spec_content() == Some(all[i])
                        &&& forall|i: int|
                            0 <= i < all.len() ==> (#[trigger] job.spec_graph().spec_node(
                                ids[i],
                            )).spec_parents() == all[i].spec_dep_ids()
                        &&& forall|i: int, j: int|
                            0 <= i < all.len() && 0 <= j < all[i].spec_dep_ids().len()
                                ==> (job.spec_graph().spec_level(
                                #[trigger] all[i].spec_dep_ids()[j],
                            ) as int) < (job.spec_graph().spec_level(ids[i]) as int)
                        &&& forall|i: int, j: int|
                            0 <= i < all.len() && 0 <= j < all[i].spec_dep_ids().len()
                                ==> job.spec_graph().spec_node(
                                #[trigger] all[i].spec_dep_ids()[j],
                            ).spec_children().contains(ids[i])
                        &&& forall|i: int|
                            0 <= i < all.len() && all[i].spec_dep_ids().len() == 0
                                ==> job.spec_graph().spec_roots().contains(#[trigger] ids[i])
                                && job.spec_graph().spec_level(ids[i]) == 0
                        &&& forall|k: Seq<char>|
                            #[trigger] job.spec_graph().spec_roots().contains(k) ==> exists|i: int|
                                0 <= i < all.len() && ids[i] == k && all[i].spec_dep_ids().len()
                                    == 0
                    },
                    Err(JobError::MissingDependency { job, keys }) => {
                        &&& !spec_deps_satisfied(all)
                        &&& job@ == self.spec_name()
                        &&& keys.deep_view() == spec_missing_from(spec_dep_union(all), ids)
                    },
                    Err(JobError::DuplicateNodeKey { key }) => {
                        &&& spec_deps_satisfied(all)
                        &&& !spec_ids_unique(all)
                        &&& ids.contains(key@)
                    },
                    Err(JobError::CycleDetected { key }) => {
                        &&& spec_deps_satisfied(all)
                        &&& !spec_acyclic(all)
                        &&& ids.contains(key@)
                    },
                    Err(JobError::ComputeFailure { .. }) => false,
                }
            }),
            spec_deps_satisfied(self.spec_assets()) && spec_ids_unique(self.spec_assets())
                && spec_acyclic(self.spec_assets()) ==> r is Ok,
    {
        match self.check_dependencies() {
            Err(e) => {
                return Err(e);
            },
            Ok(()) => {},
        }
        let ghost all = self.spec_assets();
        let ghost idsv = spec_asset_ids(all);
        let UnresolvedJob { name, assets } = self;
        let mut graph: Graph<Asset<F, R>> = Graph::new();
        let mut remaining = assets;
        let ghost mut done: Seq<Asset<F, R>> = Seq::empty();
        proof {
            assert(done.to_multiset().add(remaining@.to_multiset()) =~= all.to_multiset());
            assert(graph.spec_keys() =~= spec_asset_ids(done));
        }
        while remaining.len() > 0
            invariant
                graph.wf(),
                spec_deps_satisfied(all),
                all == self.spec_assets(),
                idsv == spec_asset_ids(all),
                done.len() + remaining@.len() == all.len(),
                all.len() < u32::MAX as usize,
                done.to_multiset().add(remaining@.to_multiset()) == all.to_multiset(),
                graph.spec_keys() == spec_asset_ids(done),
                forall|p: int|
                    0 <= p < done.len() ==> (#[trigger] graph.spec_node(
                        spec_asset_ids(done)[p],
                    )).spec_content() == Some(done[p]),
                forall|p: int|
                    0 <= p < done.len() ==> (#[trigger] graph.spec_node(
                        spec_asset_ids(done)[p],
                    )).spec_parents() == done[p].spec_dep_ids(),
                forall|p: int, q: int|
                    0 <= p < done.len() && 0 <= q < done[p].spec_dep_ids().len() ==> {
                        &&& graph.contains_key(#[trigger] done[p].spec_dep_ids()[q])
                        &&& (graph.spec_level(done[p].spec_dep_ids()[q]) as int) < (
                        graph.spec_level(spec_asset_ids(done)[p]) as int)
                        &&& graph.spec_node(done[p].spec_dep_ids()[q]).spec_children().contains(
                            spec_asset_ids(done)[p],
                        )
                    },
                forall|p: int|
                    0 <= p < done.len() && done[p].spec_dep_ids().len() == 0
                        ==> graph.spec_roots().contains(#[trigger] spec_asset_ids(done)[p])
                        && graph.spec_level(spec_asset_ids(done)[p]) == 0,
                forall|k: Seq<char>|
                    #[trigger] graph.spec_roots().contains(k) ==> exists|p: int|
                        0 <= p < done.len() && spec_asset_ids(done)[p] == k && done[
                            p
                        ].spec_dep_ids().len() == 0,
            decreases remaining@.len(),
        {
            match find_insertable(&graph, &remaining) {
                None => {
                    // Nothing is insertable although assets remain: the
                    // dependency relation cannot be acyclic.
                    let key = remaining[0].id();
                    proof {
                        lemma_stuck_means_cycle(all, done, remaining@, graph);
                        assert(remaining@[0].spec_id() == key@);
                        assert(all.to_multiset().count(remaining@[0]) >= 1);
                        assert(all.contains(remaining@[0]));
                        let i = choose|i: int| 0 <= i < all.len() && all[i] == remaining@[0];
                        assert(idsv[i] == key@);
                    }
                    return Err(JobError::CycleDetected { key });
                },
                Some(kidx) => {
                    let ghost rem0 = remaining@;
                    let asset = remaining.remove(kidx);
                    let ghost ga = asset;
                    let id_string = asset.id();
                    let deps = asset.dependency_ids();
                    let mut node: Node<Asset<F, R>> = Node::new(id_string, Some(asset));
                    let mut d: usize = 0;
                    proof {
                        assert(ga.spec_dep_ids().take(0) =~= Seq::<Seq<char>>::empty());
                    }
                    while d < deps.len()
                        invariant
                            d <= deps@.len(),
                            deps.deep_view() == ga.spec_dep_ids(),
                            node.spec_key() == ga.spec_id(),
                            node.spec_content() == Some(ga),
                            node.spec_children() == Seq::<Seq<char>>::empty(),
                            node.spec_parents() == ga.spec_dep_ids().take(d as int),
                        decreases deps@.len() - d,
                    {
                        node.add_parent(deps[d].clone());
                        proof {
                            assert(ga.spec_dep_ids().take(d as int + 1) =~= ga.spec_dep_ids().take(
                                d as int,
                            ).push(ga.spec_dep_ids()[d as int]));
                        }
                        d += 1;
                    }
                    proof {
                        assert(ga.spec_dep_ids().take(deps@.len() as int) =~= ga.spec_dep_ids());
                    }
                    let ghost g1 = graph;
                    match graph.add_node(node) {
                        Ok(()) => {
                            proof {
                                let done2 = done.push(ga);
                                let ids2 = spec_asset_ids(done2);
                                let dids = spec_asset_ids(done);
                                let nk = ga.spec_id();
                                let nps = node.spec_parents();
                                assert(nps == ga.spec_dep_ids());
                                assert(node.spec_key() == nk);
                                assert(ids2 =~= dids.push(nk));
                                assert(graph.spec_keys() == ids2);
                                // the multiset bookkeeping
                                assert(rem0[kidx as int] == ga);
                                assert(remaining@.to_multiset() =~= rem0.to_multiset().remove(ga));
                                assert(done2.to_multiset() =~= done.to_multiset().insert(ga));
                                assert(done2.to_multiset().add(remaining@.to_multiset())
                                    =~= all.to_multiset());
                                // every dependency of the new asset is in the graph
                                assert forall|q: int|
                                    0 <= q < ga.spec_dep_ids().len() implies g1.contains_key(
                                    #[trigger] ga.spec_dep_ids()[q],
                                ) by {
                                    assert(rem0[kidx as int].spec_dep_ids()[q]
                                        == ga.spec_dep_ids()[q]);
                                }
                                // old keys stay present
                                assert forall|p: int| 0 <= p < done.len() implies g1.contains_key(
                                    #[trigger] dids[p],
                                ) by {
                                    assert(g1.spec_keys()[p] == dids[p]);
                                }
                                // contents and parents, old and new
                                assert forall|p: int| 0 <= p < done2.len() implies (
                                #[trigger] graph.spec_node(ids2[p])).spec_content() == Some(
                                    done2[p],
                                ) && graph.spec_node(ids2[p]).spec_parents()
                                    == done2[p].spec_dep_ids() by {
                                    if p < done.len() {
                                        assert(ids2[p] == dids[p]);
                                        assert(g1.contains_key(dids[p]));
                                        assert((g1.spec_node(dids[p])).spec_content() == Some(
                                            done[p],
                                        ));
                                        assert((g1.spec_node(dids[p])).spec_parents() == done[
                                            p
                                        ].spec_dep_ids());
                                    } else {
                                        assert(ids2[p] == nk);
                                    }
                                }
                                // dependency edges: presence, level drop, child link
                                assert forall|p: int, q: int|
                                    0 <= p < done2.len() && 0 <= q
                                        < done2[p].spec_dep_ids().len() implies {
                                    &&& graph.contains_key(#[trigger] done2[p].spec_dep_ids()[q])
                                    &&& (graph.spec_level(done2[p].spec_dep_ids()[q]) as int) < (
                                    graph.spec_level(ids2[p]) as int)
                                    &&& graph.spec_node(
                                        done2[p].spec_dep_ids()[q],
                                    ).spec_children().contains(ids2[p])
                                } by {
                                    if p < done.len() {
                                        let dk = done[p].spec_dep_ids()[q];
                                        assert(done2[p] == done[p]);
                                        assert(ids2[p] == dids[p]);
                                        assert(g1.contains_key(dk));
                                        assert((g1.spec_level(dk) as int) < (g1.spec_level(
                                            dids[p],
                                        ) as int));
                                        assert(g1.spec_node(dk).spec_children().contains(dids[p]));
                                        assert(graph.spec_level(dk) == g1.spec_level(dk));
                                        assert(graph.spec_level(dids[p]) == g1.spec_level(
                                            dids[p],
                                        ));
                                        let oc = g1.spec_node(dk).spec_children();
                                        let nc = graph.spec_node(dk).spec_children();
                                        if nps.contains(dk) && !oc.contains(nk) {
                                            assert(nc == oc.push(nk));
                                            let w = choose|w: int|
                                                0 <= w < oc.len() && oc[w] == dids[p];
                                            assert(nc[w] == dids[p]);
                                        } else {
                                            assert(nc == oc);
                                        }
                                    } else {
                                        let dk = ga.spec_dep_ids()[q];
                                        assert(done2[p] == ga);
                                        assert(ids2[p] == nk);
                                        assert(g1.contains_key(dk));
                                        assert(graph.contains_key(dk));
                                        assert(nps[q] == dk);
                                        assert((graph.spec_level(nk) as int) > (g1.spec_level(
                                            dk,
                                        ) as int));
                                        assert(graph.spec_level(dk) == g1.spec_level(dk));
                                        assert(nps.contains(dk));
                                        let oc = g1.spec_node(dk).spec_children();
                                        let nc = graph.spec_node(dk).spec_children();
                                        if oc.contains(nk) {
                                            assert(nc == oc);
                                        } else {
                                            assert(nc == oc.push(nk));
                                            assert(nc[oc.len() as int] == nk);
                                        }
                                        assert(nc.contains(nk));
                                    }
                                }
                                // roots carry over, and the new asset roots
                                // itself exactly when it has no dependencies
                                assert forall|p: int|
                                    0 <= p < done2.len() && done2[p].spec_dep_ids().len()
                                        == 0 implies graph.spec_roots().contains(
                                    #[trigger] ids2[p],
                                ) && graph.spec_level(ids2[p]) == 0 by {
                                    if p < done.len() {
                                        assert(ids2[p] == dids[p]);
                                        assert(done2[p] == done[p]);
                                        assert(g1.spec_roots().contains(dids[p]));
                                        assert(graph.spec_level(dids[p]) == g1.spec_level(
                                            dids[p],
                                        ));
                                        let w = choose|w: int|
                                            0 <= w < g1.spec_roots().len() && g1.spec_roots()[w]
                                                == dids[p];
                                        if nps.len() == 0 {
                                            assert(graph.spec_roots() == g1.spec_roots().push(nk));
                                            assert(graph.spec_roots()[w] == dids[p]);
                                        } else {
                                            assert(graph.spec_roots() == g1.spec_roots());
                                        }
                                    } else {
                                        assert(done2[p] == ga && ids2[p] == nk);
                                        assert(nps.len() == 0);
                                        assert(graph.spec_roots() == g1.spec_roots().push(nk));
                                        assert(graph.spec_roots()[g1.spec_roots().len() as int]
                                            == nk);
                                        assert(g1.spec_next_level(nps) == 0);
                                    }
                                }
                                assert forall|k: Seq<char>|
                                    #[trigger] graph.spec_roots().contains(k) implies exists|
                                    p: int,
                                |
                                    0 <= p < done2.len() && ids2[p] == k && done2[
                                        p
                                    ].spec_dep_ids().len() == 0 by {
                                    let w = choose|w: int|
                                        0 <= w < graph.spec_roots().len() && graph.spec_roots()[w]
                                            == k;
                                    if nps.len() == 0 {
                                        assert(graph.spec_roots() == g1.spec_roots().push(nk));
                                        if w < g1.spec_roots().len() {
                                            assert(g1.spec_roots()[w] == k);
                                            assert(g1.spec_roots().contains(k));
                                            let p = choose|p: int|
                                                0 <= p < done.len() && dids[p] == k && done[
                                                    p
                                                ].spec_dep_ids().len() == 0;
                                            assert(ids2[p] == k && done2[p] == done[p]);
                                        } else {
                                            assert(k == nk);
                                            assert(ids2[done.len() as int] == k);
                                            assert(done2[done.len() as int] == ga);
                                            assert(ga.spec_dep_ids().len() == 0);
                                        }
                                    } else {
                                        assert(graph.spec_roots() == g1.spec_roots());
                                        let p = choose|p: int|
                                            0 <= p < done.len() && dids[p] == k && done[
                                                p
                                            ].spec_dep_ids().len() == 0;
                                        assert(ids2[p] == k && done2[p] == done[p]);
                                    }
                                }
                                done = done2;
                            }
                        },
                        Err(GraphError::DuplicateNodeKey { key }) => {
                            proof {
                                // the identifier is taken: two assets of the
                                // job share it
                                let dids = spec_asset_ids(done);
                                assert(key@ == ga.spec_id());
                                assert(g1.contains_key(ga.spec_id()));
                                let p = choose|p: int| 0 <= p < dids.len() && dids[p] == key@;
                                assert(done[p].spec_id() == key@);
                                assert(done.contains(done[p]));
                                assert(rem0[kidx as int] == ga);
                                assert(rem0.contains(ga));
                                lemma_shared_id(all, done, rem0, done[p], ga);
                                assert(idsv.contains(key@)) by {
                                    let (i, j) = choose|i: int, j: int|
                                        0 <= i < j < all.len() && all[i].spec_id() == done[
                                            p
                                        ].spec_id() && all[j].spec_id() == done[p].spec_id();
                                    assert(idsv[i] == key@);
                                }
                            }
                            return Err(JobError::DuplicateNodeKey { key });
                        },
                        Err(GraphError::MissingParent { .. }) => {
                            proof {
                                assert(false);
                            }
                            return vstd::pervasive::unreached();
                        },
                    }
                },
            }
        }
        proof {
            assert(remaining@.to_multiset() =~= Multiset::<Asset<F, R>>::empty());
            assert(done.to_multiset() == done.to_multiset().add(remaining@.to_multiset()));
            assert(done.to_multiset() == all.to_multiset());
            assert(done.len() == all.len());
        }
        let job = Job { name, graph };
        proof {
            let g = job.spec_graph();
            let dids = spec_asset_ids(done);
            assert(g == graph);
            // every asset of the set was inserted
            assert forall|i: int| 0 <= i < all.len() implies done.contains(#[trigger] all[i]) by {
                assert(all[i] == all[i]);
                assert(all.contains(all[i]));
                assert(all.to_multiset().count(all[i]) >= 1);
                assert(done.to_multiset().count(all[i]) >= 1);
            }
            assert forall|i: int| 0 <= i < all.len() implies g.contains_key(
                #[trigger] idsv[i],
            ) by {
                let p = choose|p: int| 0 <= p < done.len() && done[p] == all[i];
                assert(g.spec_keys()[p] == dids[p]);
                assert(dids[p] == idsv[i]);
            }
            assert forall|k: Seq<char>| #[trigger] g.contains_key(k) implies idsv.contains(k) by {
                let p = choose|p: int| 0 <= p < g.spec_keys().len() && g.spec_keys()[p] == k;
                assert(dids[p] == k);
                assert(all.to_multiset().count(done[p]) >= 1);
                assert(all.contains(done[p]));
                let i = choose|i: int| 0 <= i < all.len() && all[i] == done[p];
                assert(idsv[i] == k);
            }
            assert forall|i: int| 0 <= i < all.len() implies (#[trigger] g.spec_node(
                idsv[i],
            )).spec_content() == Some(all[i]) && g.spec_node(idsv[i]).spec_parents() == all[
                i
            ].spec_dep_ids() by {
                let p = choose|p: int| 0 <= p < done.len() && done[p] == all[i];
                assert(dids[p] == idsv[i]);
                assert((g.spec_node(dids[p])).spec_content() == Some(done[p]));
                assert((g.spec_node(dids[p])).spec_parents() == done[p].spec_dep_ids());
            }
            assert forall|i: int, j: int|
                0 <= i < all.len() && 0 <= j < all[i].spec_dep_ids().len() implies (g.spec_level(
                #[trigger] all[i].spec_dep_ids()[j],
            ) as int) < (g.spec_level(idsv[i]) as int) && g.spec_node(
                all[i].spec_dep_ids()[j],
            ).spec_children().contains(idsv[i]) by {
                let p = choose|p: int| 0 <= p < done.len() && done[p] == all[i];
                assert(dids[p] == idsv[i]);
                assert(done[p].spec_dep_ids()[j] == all[i].spec_dep_ids()[j]);
                assert((g.spec_level(done[p].spec_dep_ids()[j]) as int) < (g.spec_level(
                    dids[p],
                ) as int));
                assert(g.spec_node(done[p].spec_dep_ids()[j]).spec_children().contains(dids[p]));
            }
            assert forall|i: int|
                0 <= i < all.len() && all[i].spec_dep_ids().len() == 0 implies g.spec_roots().contains(
                #[trigger] idsv[i],
            ) && g.spec_level(idsv[i]) == 0 by {
                let p = choose|p: int| 0 <= p < done.len() && done[p] == all[i];
                assert(dids[p] == idsv[i]);
                assert(done[p].spec_dep_ids().len() == 0);
            }
            assert forall|k: Seq<char>| #[trigger] g.spec_roots().contains(k) implies exists|
                i: int,
            | 0 <= i < all.len() && idsv[i] == k && all[i].spec_dep_ids().len() == 0 by {
                let p = choose|p: int|
                    0 <= p < done.len() && dids[p] == k && done[p].spec_dep_ids().len() == 0;
                assert(all.to_multiset().count(done[p]) >= 1);
                assert(all.contains(done[p]));
                let i = choose|i: int| 0 <= i < all.len() && all[i] == done[p];
                assert(idsv[i] == k && all[i].spec_dep_ids().len() == 0);
            }
            // the dependency relation of a resolved set is acyclic: any
            // non-empty sub-collection has a member at minimal level, and
            // it can depend on no member of that sub-collection
            assert forall|s: Seq<Asset<F, R>>|
                s.len() > 0 && (#[trigger] s.to_multiset()).subset_of(
                    all.to_multiset(),
                ) implies spec_has_free(s) by {
                lemma_min_level_member(g, s);
                let mi = choose|mi: int| 0 <= mi < s.len() && spec_min_level_at(g, s, mi);
                assert forall|j: int| 0 <= j < s.len() implies !s[mi].spec_dep_ids().contains(
                    #[trigger] s[j].spec_id(),
                ) by {
                    if s[mi].spec_dep_ids().contains(s[j].spec_id()) {
                        let q = choose|q: int|
                            0 <= q < s[mi].spec_dep_ids().len() && s[mi].spec_dep_ids()[q] == s[
                                j
                            ].spec_id();
                        assert(s.to_multiset().count(s[mi]) >= 1);
                        assert(all.to_multiset().count(s[mi]) >= 1);
                        assert(done.to_multiset().count(s[mi]) >= 1);
                        assert(done.contains(s[mi]));
                        let p = choose|p: int| 0 <= p < done.len() && done[p] == s[mi];
                        assert(done[p].spec_dep_ids()[q] == s[j].spec_id());
                        assert((g.spec_level(done[p].spec_dep_ids()[q]) as int) < (g.spec_level(
                            dids[p],
                        ) as int));
                        assert(dids[p] == s[mi].spec_id());
                        assert((g.spec_level(s[mi].spec_id()) as int) <= (g.spec_level(
                            s[j].spec_id(),
                        ) as int));
                    }
                }
                assert(spec_free_in(s, mi));
                assert(spec_has_free(s));
            }
            assert(spec_acyclic(all));
            // the identifiers are pairwise distinct
            graph.lemma_wf_keys_unique();
            assert forall|i: int, j: int| 0 <= i < j < all.len() implies idsv[i] != idsv[j] by {
                if idsv[i] == idsv[j] {
                    if all[i] == all[j] {
                        lemma_count_two(all, i, j);
                        assert(done.to_multiset().count(all[i]) >= 2);
                        lemma_two_positions(done, all[i]);
                        let (p, p2) = choose|p: int, p2: int|
                            0 <= p < p2 < done.len() && done[p] == all[i] && done[p2] == all[i];
                        assert(g.spec_keys()[p] == g.spec_keys()[p2]);
                    } else {
                        let p = choose|p: int| 0 <= p < done.len() && done[p] == all[i];
                        let p2 = choose|p2: int| 0 <= p2 < done.len() && done[p2] == all[j];
                        assert(p != p2);
                        assert(g.spec_keys()[p] == dids[p] && g.spec_keys()[p2] == dids[p2]);
                        assert(g.spec_keys()[p] == g.spec_keys()[p2]);
                    }
                }
            }
        }
        Ok(job)
    }
}

/// Whether the node with the given key carries content.
pub open spec fn spec_content_pred<T: NodeContent>(g: Graph<T>) -> spec_fn(Seq<char>) -> bool {
    |k: Seq<char>| g.spec_node(k).spec_content() is Some
}

/// The keys of the content-bearing nodes, in visitation order: the order in
/// which execution runs the assets.
pub open spec fn spec_exec_ids<T: NodeContent>(g: Graph<T>) -> Seq<Seq<char>> {
    g.spec_key_order().filter(spec_content_pred(g))
}

/// The identifier views of a sequence of execution results.
pub open spec fn pair_ids<T: NodeContent>(s: Seq<(String, T::Output)>) -> Seq<Seq<char>> {
    s.map_values(|p: (String, T::Output)| p.0@)
}

impl<T: NodeContent> Job<T> {
    pub closed spec fn spec_name(&self) -> Seq<char> {
        self.name@
    }

    pub closed spec fn spec_graph(&self) -> Graph<T> {
        self.graph
    }

    pub fn name(&self) -> (r: &String)
        ensures
            r@ == self.spec_name(),
    {
        &self.name
    }

    pub fn graph(&self) -> (r: &Graph<T>)
        ensures
            *r == self.spec_graph(),
    {
        &self.graph
    }

    /// The visitation order of the job's graph: the order in which
    /// execution runs the assets. Only the graph's caches can change.
    pub fn visitation_order(&mut self) -> (r: Vec<NodeLevel>)
        requires
            old(self).spec_graph().wf(),
        ensures
            final(self).spec_graph().wf(),
            final(self).spec_graph().same_topology(&old(self).spec_graph()),
            final(self).spec_name() == old(self).spec_name(),
            entry_views(r@) == old(self).spec_graph().spec_visitation(),
    {
        self.graph.visitation_order()
    }

    /// Runs every asset of the job in visitation order — ascending level,
    /// and ascending key within a level — so that each asset runs strictly
    /// after all of its dependencies. Returns one identifier–result pair per
    /// content-bearing node, in execution order. Nothing is memoized: every
    /// call re-runs every asset.
    pub fn execute(&mut self) -> (r: Vec<(String, T::Output)>)
        requires
            old(self).spec_graph().wf(),
            forall|k: Seq<char>|
                #[trigger] old(self).spec_graph().contains_key(k) ==> (old(
                    self,
                ).spec_graph().spec_node(k).spec_content() matches Some(c) ==> c.wf()),
        ensures
            final(self).spec_graph().wf(),
            final(self).spec_graph().same_topology(&old(self).spec_graph()),
            final(self).spec_name() == old(self).spec_name(),
            pair_ids::<T>(r@) == spec_exec_ids(old(self).spec_graph()),
            forall|t: int|
                0 <= t < r@.len() ==> (old(self).spec_graph().spec_node(
                    pair_ids::<T>(r@)[t],
                ).spec_content() matches Some(c) && c.post(#[trigger] r@[t].1)),
    {
        let ghost g0 = self.graph;
        let order = self.graph.visitation_order();
        let ghost ko = g0.spec_key_order();
        let ghost pred = spec_content_pred(g0);
        let mut r: Vec<(String, T::Output)> = Vec::new();
        let mut i: usize = 0;
        proof {
            reveal(Seq::filter);
            assert(pair_ids::<T>(r@) =~= Seq::<Seq<char>>::empty());
            assert(ko.take(0) =~= Seq::<Seq<char>>::empty());
            assert(ko.take(0).filter(pred) =~= Seq::<Seq<char>>::empty());
            assert(ko.len() == g0.spec_visitation().len());
        }
        while i < order.len()
            invariant
                i <= order@.len(),
                self.graph.wf(),
                self.graph.same_topology(&g0),
                self.name == old(self).name,
                entry_views(order@) == g0.spec_visitation(),
                ko == g0.spec_key_order(),
                ko.len() == order@.len(),
                pred == spec_content_pred(g0),
                forall|k: Seq<char>|
                    #[trigger] g0.contains_key(k) ==> (g0.spec_node(k).spec_content() matches Some(
                        c,
                    ) ==> c.wf()),
                pair_ids::<T>(r@) == ko.take(i as int).filter(pred),
                forall|t: int|
                    0 <= t < r@.len() ==> (g0.spec_node(pair_ids::<T>(r@)[t]).spec_content()
                        matches Some(c) && c.post(#[trigger] r@[t].1)),
            decreases order@.len() - i,
        {
            proof {
                // the entry's key is a key of the graph
                assert(entry_views(order@)[i as int] == order@[i as int]@);
                assert(ko[i as int] == g0.spec_visitation()[i as int].0);
                lemma_visitation_keys(g0, i as int);
                assert(self.graph.spec_nodes() == g0.spec_nodes());
                assert(self.graph.spec_levels() == g0.spec_levels());
                assert(self.graph.spec_keys() =~= g0.spec_keys());
                assert(ko.take(i as int + 1).drop_last() =~= ko.take(i as int));
                assert(ko.take(i as int + 1).last() == ko[i as int]);
            }
            let ghost k = ko[i as int];
            match self.graph.get_node(order[i].key()) {
                Some(n) => {
                    proof {
                        assert(self.graph.contains_key(k));
                        assert(g0.contains_key(k));
                        assert(self.graph.spec_index_of(k) == g0.spec_index_of(k));
                        assert(*n == g0.spec_node(k));
                    }
                    match n.content() {
                        Some(c) => {
                            let out = c.execute();
                            let ghost oldr = r@;
                            let id = String::from_str(order[i].key());
                            let ghost idv = id@;
                            r.push((id, out));
                            proof {
                                assert(idv == k);
                                assert forall|t: int| 0 <= t < r@.len() implies pair_ids::<T>(
                                    r@,
                                )[t] == pair_ids::<T>(oldr).push(k)[t] by {
                                    if t < oldr.len() {
                                        assert(r@[t] == oldr[t]);
                                    } else {
                                        assert(r@[t].0@ == idv);
                                    }
                                }
                                assert(pair_ids::<T>(r@) =~= pair_ids::<T>(oldr).push(k));
                                assert(pred(k));
                                reveal(Seq::filter);
                                let t1 = ko.take(i as int + 1);
                                assert(t1.drop_last() == ko.take(i as int));
                                assert(t1.last() == k);
                                assert(t1.filter(pred) == t1.drop_last().filter(pred).push(
                                    t1.last(),
                                ));
                            }
                        },
                        None => {
                            proof {
                                assert(!pred(k));
                                reveal(Seq::filter);
                                let t1 = ko.take(i as int + 1);
                                assert(t1.drop_last() == ko.take(i as int));
                                assert(t1.last() == k);
                                assert(t1.filter(pred) == t1.drop_last().filter(pred));
                            }
                        },
                    }
                },
                None => {
                    proof {
                        assert(false);
                    }
                },
            }
            i += 1;
        }
        proof {
            assert(ko.take(order@.len() as int) =~= ko);
        }
        r
    }
}

/// Every key of the visitation order is a key of the graph.
proof fn lemma_visitation_keys<T: NodeContent>(g: Graph<T>, i: int)
    requires
        0 <= i < g.spec_visitation().len(),
    ensures
        g.contains_key(g.spec_key_order()[i]),
        g.spec_key_order()[i] == g.spec_visitation()[i].0,
{
    crate::graph::graph::lemma_entry_le_total_ordering();
    g.spec_entries().lemma_sort_by_ensures(crate::graph::graph::entry_leq());
    let v = g.spec_visitation()[i];
    assert(g.spec_visitation().contains(v));
    assert(g.spec_visitation().to_multiset().count(v) >= 1);
    assert(g.spec_entries().to_multiset().count(v) >= 1);
    assert(g.spec_entries().contains(v));
    let p = choose|p: int| 0 <= p < g.spec_entries().len() && g.spec_entries()[p] == v;
    assert(g.spec_keys()[p] == v.0);
}

/// The position of the first failed outcome, or the length if every
/// outcome succeeded.
pub open spec fn spec_first_err_index<V, E>(o: Seq<(String, Result<V, E>)>) -> int
    decreases o.len(),
{
    if o.len() == 0 {
        0
    } else if o[0].1 is Err {
        0
    } else {
        1 + spec_first_err_index(o.drop_first())
    }
}

/// The first failed outcome is at the position where a scan from the front
/// meets the first failure.
proof fn lemma_first_err_index<V, E>(o: Seq<(String, Result<V, E>)>, i: int)
    requires
        0 <= i < o.len(),
        o[i].1 is Err,
        forall|j: int| 0 <= j < i ==> (#[trigger] o[j].1) is Ok,
    ensures
        spec_first_err_index(o) == i,
    decreases i,
{
    if i > 0 {
        assert(o[0].1 is Ok);
        let rest = o.drop_first();
        assert(rest[i - 1] == o[i]);
        assert forall|j: int| 0 <= j < i - 1 implies (#[trigger] rest[j].1) is Ok by {
            assert(rest[j] == o[j + 1]);
        }
        lemma_first_err_index(rest, i - 1);
    }
}

/// Filtering keeps a sequence whole when every element satisfies the
/// predicate.
proof fn lemma_filter_all<A>(s: Seq<A>, pred: spec_fn(A) -> bool)
    requires
        forall|i: int| 0 <= i < s.len() ==> pred(#[trigger] s[i]),
    ensures
        s.filter(pred) == s,
    decreases s.len(),
{
    reveal(Seq::filter);
    if s.len() > 0 {
        assert forall|i: int| 0 <= i < s.drop_last().len() implies pred(
            #[trigger] s.drop_last()[i],
        ) by {
            assert(s.drop_last()[i] == s[i]);
        }
        lemma_filter_all(s.drop_last(), pred);
        assert(pred(s.last()));
        assert(s.drop_last().filter(pred).push(s.last()) =~= s);
    }
}

/// When every node of a well-formed graph carries content — as in any graph
/// built by resolution — execution runs the assets exactly in visitation
/// order: ascending level, and ascending key within a level. Since
/// resolution places every asset strictly above all of its dependencies,
/// every asset then executes strictly after all of its dependencies.
pub proof fn lemma_execution_follows_visitation<T: NodeContent>(g: Graph<T>)
    requires
        g.wf(),
        forall|k: Seq<char>|
            #[trigger] g.contains_key(k) ==> g.spec_node(k).spec_content() is Some,
    ensures
        spec_exec_ids(g) == g.spec_key_order(),
{
    let ko = g.spec_key_order();
    let pred = spec_content_pred(g);
    assert forall|i: int| 0 <= i < ko.len() implies pred(#[trigger] ko[i]) by {
        lemma_visitation_keys(g, i);
    }
    lemma_filter_all(ko, pred);
}

/// Applies the execution policy to per-asset outcomes: the results are kept
/// only when every asset succeeded; the first failure aborts the pass and
/// discards every result, naming the failing asset.
pub fn collect_results<V, E>(outcomes: Vec<(String, Result<V, E>)>) -> (r: Result<
    Vec<(String, V)>,
    JobError,
>)
    ensures
        match r {
            Ok(vs) => {
                &&& forall|i: int| 0 <= i < outcomes@.len() ==> (#[trigger] outcomes@[i].1) is Ok
                &&& vs@.len() == outcomes@.len()
                &&& forall|i: int|
                    0 <= i < outcomes@.len() ==> (#[trigger] vs@[i]).0 == outcomes@[i].0 && (
                    outcomes@[i].1 matches Ok(v) && vs@[i].1 == v)
            },
            Err(JobError::ComputeFailure { asset_id }) => ({
                let fi = spec_first_err_index(outcomes@);
                &&& fi < outcomes@.len()
                &&& outcomes@[fi].1 is Err
                &&& asset_id == outcomes@[fi].0
                &&& forall|j: int| 0 <= j < fi ==> (#[trigger] outcomes@[j].1) is Ok
            }),
            Err(_) => false,
        },
{
    let ghost o0 = outcomes@;
    let n = outcomes.len();

    // Scan for the first failure before taking anything apart.
    let mut fi: usize = 0;
    while fi < n && outcomes[fi].1.is_ok()
        invariant
            fi <= n,
            n == outcomes@.len(),
            o0 == outcomes@,
            forall|j: int| 0 <= j < fi ==> (#[trigger] outcomes@[j].1) is Ok,
        decreases n - fi,
    {
        fi += 1;
    }

    if fi < n {
        proof {
            lemma_first_err_index(o0, fi as int);
        }
        let mut rest = outcomes;
        let (id, _res) = rest.remove(fi);
        return Err(JobError::ComputeFailure { asset_id: id });
    }

    // Every outcome succeeded: keep all the results.
    let mut rest = outcomes;
    let mut done: Vec<(String, V)> = Vec::new();
    while rest.len() > 0
        invariant
            done@.len() + rest@.len() == o0.len(),
            rest@ == o0.skip(done@.len() as int),
            forall|j: int| 0 <= j < o0.len() ==> (#[trigger] o0[j].1) is Ok,
            forall|j: int|
                0 <= j < done@.len() ==> (#[trigger] done@[j]).0 == o0[j].0 && (o0[j].1 matches Ok(
                    v,
                ) && done@[j].1 == v),
        decreases rest@.len(),
    {
        let ghost i = done@.len() as int;
        proof {
            assert(rest@[0] == o0[i]);
        }
        let (id, res) = rest.remove(0);
        match res {
            Ok(v) => {
                done.push((id, v));
                proof {
                    assert(rest@ =~= o0.skip(done@.len() as int));
                }
            },
            Err(_) => {
                proof {
                    assert(o0[i].1 is Err);
                    assert(false);
                }
                return vstd::pervasive::unreached();
            },
        }
    }
    proof {
        assert(done@.len() == o0.len());
    }
    Ok(done)
}

/// A value at two positions of a sequence has multiset count at least two.
proof fn lemma_count_two<A>(s: Seq<A>, i: int, j: int)
    requires
        0 <= i < j < s.len(),
        s[i] == s[j],
    ensures
        s.to_multiset().count(s[i]) >= 2,
{
    let rest = s.remove(i);
    assert(rest.to_multiset() =~= s.to_multiset().remove(s[i]));
    assert(rest[j - 1] == s[j]);
    assert(rest.contains(s[i]));
    assert(rest.to_multiset().count(s[i]) >= 1);
    assert(s.to_multiset().count(s[i]) == rest.to_multiset().count(s[i]) + 1);
}

/// Satisfaction of every asset's dependencies equals satisfaction of the
/// dependency union.
pub proof fn lemma_dep_union_satisfied<F, R>(assets: Seq<Asset<F, R>>) where F: Fn() -> R
    ensures
        (forall|j: int|
            0 <= j < spec_dep_union(assets).len() ==> spec_asset_ids(assets).contains(
                #[trigger] spec_dep_union(assets)[j],
            )) <==> spec_deps_satisfied(assets),
{
    let u = spec_dep_union(assets);
    let ids = spec_asset_ids(assets);
    if forall|j: int| 0 <= j < u.len() ==> ids.contains(#[trigger] u[j]) {
        assert forall|i: int, j: int|
            0 <= i < assets.len() && 0 <= j < assets[i].spec_dep_ids().len() implies ids.contains(
            #[trigger] assets[i].spec_dep_ids()[j],
        ) by {
            lemma_dep_union_covers(assets, i, j);
            let p = choose|p: int| 0 <= p < u.len() && u[p] == assets[i].spec_dep_ids()[j];
            assert(ids.contains(u[p]));
        }
    }
    if spec_deps_satisfied(assets) {
        assert forall|j: int| 0 <= j < u.len() implies ids.contains(#[trigger] u[j]) by {
            lemma_dep_union_origin(assets, j);
            let (i, q) = choose|i: int, q: int|
                0 <= i < assets.len() && 0 <= q < assets[i].spec_dep_ids().len() && u[j]
                    == assets[i].spec_dep_ids()[q];
            assert(ids.contains(assets[i].spec_dep_ids()[q]));
        }
    }
}

} // verus!
