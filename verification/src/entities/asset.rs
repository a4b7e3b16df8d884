//! Keyed assets: named units of work with hierarchical identifiers and
//! declared dependencies.

use vstd::prelude::*;

use crate::keys::join_segments;
use crate::keys::spec_join;
use crate::traits::NodeContent;

verus! {

/// The separator that joins key segments into a flat identifier.
pub open spec fn spec_id_sep() -> Seq<char> {
    "__"@
}

/// The flat identifier formed from key segments.
pub open spec fn spec_id_of(segments: Seq<Seq<char>>) -> Seq<char> {
    spec_join(segments, spec_id_sep())
}

/// A hierarchical identifier: an ordered sequence of string segments.
#[derive(Debug, Clone, PartialEq, Eq, Hash)]
pub struct AssetKey(Vec<String>);

impl AssetKey {
    /// The key's segments, as character sequences.
    pub closed spec fn spec_segments(&self) -> Seq<Seq<char>> {
        self.0.deep_view()
    }

    /// The flat identifier the key joins into.
    pub open spec fn spec_flat(&self) -> Seq<char> {
        spec_id_of(self.spec_segments())
    }

    pub fn new(key: Vec<String>) -> (r: Self)
        ensures
            r.spec_segments() == key.deep_view(),
    {
        AssetKey(key)
    }

    /// A copy of the key's segments.
    pub fn to_vec(&self) -> (r: Vec<String>)
        ensures
            r.deep_view() == self.spec_segments(),
    {
        let mut r: Vec<String> = Vec::new();
        let mut i: usize = 0;
        proof {
            assert(r.deep_view() =~= Seq::<Seq<char>>::empty());
            assert(self.spec_segments().take(0) =~= Seq::<Seq<char>>::empty());
        }
        while i < self.0.len()
            invariant
                i <= self.0@.len(),
                r.deep_view() == self.spec_segments().take(i as int),
            decreases self.0@.len() - i,
        {
            let ghost oldr = r;
            let s = self.0[i].clone();
            let ghost sv = s;
            r.push(s);
            proof {
                crate::keys::lemma_deep_view_push(oldr, r, sv);
                assert(self.spec_segments().take(i as int + 1) =~= self.spec_segments().take(
                    i as int,
                ).push(self.spec_segments()[i as int]));
            }
            i += 1;
        }
        proof {
            assert(self.spec_segments().take(self.0@.len() as int) =~= self.spec_segments());
        }
        r
    }

    /// The flat identifier: the segments joined by the separator.
    pub fn flat_id(&self) -> (r: String)
        ensures
            r@ == self.spec_flat(),
    {
        join_segments(&self.0, "__")
    }
}

/// A named, keyed unit of work: a display name, a hierarchical key, a
/// description, declared dependency keys, and a compute function.
#[verifier::reject_recursive_types(R)]
pub struct Asset<F, R> where F: Fn() -> R {
    name: String,
    key: AssetKey,
    description: String,
    dependencies: Vec<AssetKey>,
    func: F,
}

impl<F, R> Asset<F, R> where F: Fn() -> R {
    pub closed spec fn spec_name(&self) -> Seq<char> {
        self.name@
    }

    pub closed spec fn spec_key_segments(&self) -> Seq<Seq<char>> {
        self.key.spec_segments()
    }

    pub closed spec fn spec_desc(&self) -> Seq<char> {
        self.description@
    }

    pub closed spec fn spec_deps(&self) -> Seq<AssetKey> {
        self.dependencies@
    }

    pub closed spec fn spec_func(&self) -> F {
        self.func
    }

    pub fn new(
        name: String,
        key: Vec<String>,
        description: String,
        func: F,
        dependencies: Vec<AssetKey>,
    ) -> (r: Self)
        ensures
            r.spec_name() == name@,
            r.spec_key_segments() == key.deep_view(),
            r.spec_desc() == description@,
            r.spec_deps() == dependencies@,
            r.spec_func() == func,
    {
        Asset { name, key: AssetKey::new(key), description, dependencies, func }
    }

    pub fn name(&self) -> (r: &String)
        ensures
            r@ == self.spec_name(),
    {
        &self.name
    }

    pub fn key(&self) -> (r: &AssetKey)
        ensures
            r.spec_segments() == self.spec_key_segments(),
    {
        &self.key
    }

    pub fn description(&self) -> (r: &String)
        ensures
            r@ == self.spec_desc(),
    {
        &self.description
    }

    pub fn dependencies(&self) -> (r: &Vec<AssetKey>)
        ensures
            r@ == self.spec_deps(),
    {
        &self.dependencies
    }

    pub fn func(&self) -> (r: &F)
        ensures
            *r == self.spec_func(),
    {
        &self.func
    }

    /// The flat identifiers of the declared dependencies, in order.
    pub fn dependency_ids(&self) -> (r: Vec<String>)
        ensures
            r.deep_view() == self.spec_dep_ids(),
    {
        let mut r: Vec<String> = Vec::new();
        let mut i: usize = 0;
        proof {
            assert(r.deep_view() =~= Seq::<Seq<char>>::empty());
            assert(self.spec_dep_ids().take(0) =~= Seq::<Seq<char>>::empty());
        }
        while i < self.dependencies.len()
            invariant
                i <= self.dependencies@.len(),
                self.dependencies@.len() == self.spec_dep_ids().len(),
                r.deep_view() == self.spec_dep_ids().take(i as int),
            decreases self.dependencies@.len() - i,
        {
            let ghost oldr = r;
            let s = self.dependencies[i].flat_id();
            let ghost sv = s;
            r.push(s);
            proof {
                crate::keys::lemma_deep_view_push(oldr, r, sv);
                assert(sv@ == self.spec_dep_ids()[i as int]);
                assert(self.spec_dep_ids().take(i as int + 1) =~= self.spec_dep_ids().take(
                    i as int,
                ).push(self.spec_dep_ids()[i as int]));
            }
            i += 1;
        }
        proof {
            assert(self.spec_dep_ids().take(self.spec_dep_ids().len() as int)
                =~= self.spec_dep_ids());
        }
        r
    }
}

impl<F, R> NodeContent for Asset<F, R> where F: Fn() -> R {
    type Output = R;

    /// The flat identifier: the key segments joined by the separator.
    open spec fn spec_id(&self) -> Seq<char> {
        spec_id_of(self.spec_key_segments())
    }

    /// The flat identifiers of the declared dependency keys, in order.
    open spec fn spec_dep_ids(&self) -> Seq<Seq<char>> {
        Seq::new(self.spec_deps().len(), |i: int| self.spec_deps()[i].spec_flat())
    }

    /// The asset may be executed when its compute function may be called.
    open spec fn wf(&self) -> bool {
        call_requires(self.spec_func(), ())
    }

    /// An output is possible exactly when the compute function can return it.
    open spec fn post(&self, out: R) -> bool {
        call_ensures(self.spec_func(), (), out)
    }

    fn id(&self) -> (r: String) {
        self.key.flat_id()
    }

    fn dependencies(&self) -> (r: Vec<String>) {
        self.dependency_ids()
    }

    fn execute(&self) -> (out: R) {
        (self.func)()
    }
}

} // verus!
