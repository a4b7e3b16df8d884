//! The graph: an owned arena of nodes, each with a level, plus the root
//! keys and two cached views derived from the topology.
//!
//! A node's level is fixed when the node is inserted: roots sit at level
//! zero, and every other node sits one level above the highest of its
//! parents' levels. Since a node can only be inserted once all of its
//! declared parents are present, every level is strictly above the levels of
//! all the node's parents, and the level-then-key order of all nodes is a
//! visitation order in which every node comes after its parents.
//!
//! Both cached views — the visitation order and the key index — are pure
//! functions of the topology: they are cleared whenever a node is added and
//! rebuilt on the next read, so a read can never observe a stale view.

use vstd::prelude::*;

use crate::errors::GraphError;
use crate::keys::key_le;
use crate::keys::key_leq;
use crate::keys::lemma_key_le_total_ordering;
use crate::keys::lemma_sorted_insert;
use crate::keys::str_key_le;
use crate::graph::node::Node;
use crate::traits::NodeContent;

verus! {

use vstd::relations::{sorted_by, total_ordering, transitive};
use vstd::seq_lib::lemma_sorted_unique;
use vstd::string::StringExecFns;

broadcast use vstd::seq_lib::group_to_multiset_ensures;

/// A node key paired with the level at which the visitation reaches it.
pub struct NodeLevel {
    node: String,
    level: u32,
}

impl View for NodeLevel {
    type V = (Seq<char>, u32);

    closed spec fn view(&self) -> (Seq<char>, u32) {
        (self.node@, self.level)
    }
}

impl NodeLevel {
    pub fn new(node: String, level: u32) -> (r: Self)
        ensures
            r@ == (node@, level),
    {
        NodeLevel { node, level }
    }

    pub fn key(&self) -> (r: &str)
        ensures
            r@ == self@.0,
    {
        self.node.as_str()
    }

    pub fn level(&self) -> (r: u32)
        ensures
            r == self@.1,
    {
        self.level
    }
}

impl Clone for NodeLevel {
    fn clone(&self) -> (r: Self)
        ensures
            r == *self,
    {
        NodeLevel { node: self.node.clone(), level: self.level }
    }
}

/// Order of visitation entries: ascending level, and ascending key within a
/// level.
pub open spec fn entry_le(a: (Seq<char>, u32), b: (Seq<char>, u32)) -> bool {
    a.1 < b.1 || (a.1 == b.1 && key_le(a.0, b.0))
}

/// `entry_le` as a function value.
pub open spec fn entry_leq() -> spec_fn((Seq<char>, u32), (Seq<char>, u32)) -> bool {
    |a: (Seq<char>, u32), b: (Seq<char>, u32)| entry_le(a, b)
}

/// `entry_le` is a total order on visitation entries.
pub proof fn lemma_entry_le_total_ordering()
    ensures
        total_ordering(entry_leq()),
{
    lemma_key_le_total_ordering();
    let leq = entry_leq();
    let kleq = key_leq();
    assert forall|a: (Seq<char>, u32), b: (Seq<char>, u32)|
        #[trigger] leq(a, b) && #[trigger] leq(b, a) implies a == b by {
        assert(kleq(a.0, b.0) == key_le(a.0, b.0));
        assert(kleq(b.0, a.0) == key_le(b.0, a.0));
    }
    assert forall|a: (Seq<char>, u32), b: (Seq<char>, u32), c: (Seq<char>, u32)|
        #[trigger] leq(a, b) && #[trigger] leq(b, c) implies leq(a, c) by {
        if a.1 == b.1 && b.1 == c.1 {
            assert(kleq(a.0, b.0) == key_le(a.0, b.0));
            assert(kleq(b.0, c.0) == key_le(b.0, c.0));
            assert(kleq(a.0, c.0) == key_le(a.0, c.0));
        }
    }
    assert forall|a: (Seq<char>, u32), b: (Seq<char>, u32)|
        #[trigger] leq(a, b) || #[trigger] leq(b, a) by {
        if a.1 == b.1 {
            assert(kleq(a.0, b.0) == key_le(a.0, b.0));
            assert(kleq(b.0, a.0) == key_le(b.0, a.0));
        }
    }
}

/// The views of a sequence of visitation entries.
pub open spec fn entry_views(s: Seq<NodeLevel>) -> Seq<(Seq<char>, u32)> {
    s.map_values(|nl: NodeLevel| nl@)
}

/// Decides `entry_le` on two visitation entries.
fn nl_le(a: &NodeLevel, b: &NodeLevel) -> (r: bool)
    ensures
        r == entry_le(a@, b@),
{
    if a.level() < b.level() {
        true
    } else if a.level() == b.level() {
        str_key_le(a.key(), b.key())
    } else {
        false
    }
}

/// Inserts an entry into a vector sorted by `entry_le`, keeping it sorted.
fn insert_level_sorted(v: &mut Vec<NodeLevel>, x: NodeLevel)
    requires
        sorted_by(entry_views(old(v)@), entry_leq()),
    ensures
        sorted_by(entry_views(final(v)@), entry_leq()),
        entry_views(final(v)@).to_multiset() == entry_views(old(v)@).to_multiset().insert(x@),
{
    let mut i: usize = 0;
    while i < v.len() && nl_le(&v[i], &x)
        invariant
            i <= v@.len(),
            *v == *old(v),
            forall|j: int| 0 <= j < i ==> entry_le(#[trigger] entry_views(v@)[j], x@),
        decreases v@.len() - i,
    {
        proof {
            assert(entry_views(v@)[i as int] == v@[i as int]@);
        }
        i += 1;
    }
    let ghost oldviews = entry_views(v@);
    let ghost ii = i as int;
    proof {
        lemma_entry_le_total_ordering();
        if ii < oldviews.len() {
            assert(oldviews[ii] == v@[ii]@);
            assert(!entry_le(oldviews[ii], x@));
            assert(entry_leq()(x@, oldviews[ii]) || entry_leq()(oldviews[ii], x@));
            assert(entry_leq()(x@, oldviews[ii]));
        }
        assert(forall|j: int| 0 <= j < ii ==> entry_leq()(#[trigger] oldviews[j], x@));
        lemma_sorted_insert(oldviews, ii, x@, entry_leq());
    }
    let ghost xx = x@;
    v.insert(i, x);
    proof {
        let nviews = entry_views(v@);
        assert forall|k: int| 0 <= k < nviews.len() implies nviews[k] == oldviews.insert(
            ii,
            xx,
        )[k] by {
            oldviews.insert_ensures(ii, xx);
            assert(nviews[k] == v@[k]@);
        }
        assert(nviews =~= oldviews.insert(ii, xx));
    }
}

/// A graph of nodes with optional content of type `T`.
pub struct Graph<T: NodeContent> {
    nodes: Vec<Node<T>>,
    levels: Vec<u32>,
    roots: Vec<String>,
    order_cache: Option<Vec<NodeLevel>>,
    index_cache: Option<Vec<String>>,
}

impl<T: NodeContent> Graph<T> {
    /// The nodes, in insertion order.
    pub closed spec fn spec_nodes(&self) -> Seq<Node<T>> {
        self.nodes@
    }

    /// The node keys, in insertion order.
    pub open spec fn spec_keys(&self) -> Seq<Seq<char>> {
        self.spec_nodes().map_values(|n: Node<T>| n.spec_key())
    }

    /// The node levels, in insertion order.
    pub closed spec fn spec_levels(&self) -> Seq<u32> {
        self.levels@
    }

    /// Whether a node with key `k` is in the graph.
    pub open spec fn contains_key(&self, k: Seq<char>) -> bool {
        self.spec_keys().contains(k)
    }

    /// The arena index of the node with key `k`.
    pub open spec fn spec_index_of(&self, k: Seq<char>) -> int {
        choose|i: int| 0 <= i < self.spec_keys().len() && self.spec_keys()[i] == k
    }

    /// The node with key `k`.
    pub open spec fn spec_node(&self, k: Seq<char>) -> Node<T> {
        self.spec_nodes()[self.spec_index_of(k)]
    }

    /// The level of the node with key `k`.
    pub open spec fn spec_level(&self, k: Seq<char>) -> u32 {
        self.spec_levels()[self.spec_index_of(k)]
    }

    /// The root keys, in insertion order.
    pub closed spec fn spec_roots(&self) -> Seq<Seq<char>> {
        self.roots.deep_view()
    }

    /// The visitation entries: each node's key and level, in insertion order.
    pub open spec fn spec_entries(&self) -> Seq<(Seq<char>, u32)> {
        Seq::new(
            self.spec_nodes().len(),
            |i: int| (self.spec_nodes()[i].spec_key(), self.spec_levels()[i]),
        )
    }

    /// The visitation order: all entries, sorted by level and then by key.
    pub open spec fn spec_visitation(&self) -> Seq<(Seq<char>, u32)> {
        self.spec_entries().sort_by(entry_leq())
    }

    /// The key index: the keys in visitation order.
    pub open spec fn spec_key_order(&self) -> Seq<Seq<char>> {
        self.spec_visitation().map_values(|e: (Seq<char>, u32)| e.0)
    }

    /// Whether two graphs have the same topology: the caches play no part.
    pub open spec fn same_topology(&self, other: &Self) -> bool {
        &&& self.spec_nodes() == other.spec_nodes()
        &&& self.spec_levels() == other.spec_levels()
        &&& self.spec_roots() == other.spec_roots()
    }

    /// Well-formedness: one level per node, unique keys, every level bounded
    /// by the node's arena index, and caches that match the topology.
    pub closed spec fn wf(&self) -> bool {
        &&& self.levels@.len() == self.nodes@.len()
        &&& forall|i: int, j: int|
            0 <= i < j < self.spec_keys().len() ==> self.spec_keys()[i] != self.spec_keys()[j]
        &&& forall|i: int| 0 <= i < self.levels@.len() ==> (#[trigger] self.levels@[i] as int) <= i
        &&& match self.order_cache {
            Some(c) => entry_views(c@) == self.spec_visitation(),
            None => true,
        }
        &&& match self.index_cache {
            Some(c) => c.deep_view() == self.spec_key_order(),
            None => true,
        }
    }

    /// In a well-formed graph the keys are pairwise distinct.
    pub proof fn lemma_wf_keys_unique(&self)
        requires
            self.wf(),
        ensures
            forall|i: int, j: int|
                0 <= i < j < self.spec_keys().len() ==> self.spec_keys()[i] != self.spec_keys()[j],
    {
    }

    /// In a well-formed graph the arena index of a present key is unique.
    pub proof fn lemma_index_of(&self, k: Seq<char>, i: int)
        requires
            self.wf(),
            0 <= i < self.spec_keys().len(),
            self.spec_keys()[i] == k,
        ensures
            self.spec_index_of(k) == i,
    {
        let j = self.spec_index_of(k);
        assert(0 <= j < self.spec_keys().len() && self.spec_keys()[j] == k);
    }

    /// Creates an empty graph.
    pub fn new() -> (r: Self)
        ensures
            r.wf(),
            r.spec_nodes() == Seq::<Node<T>>::empty(),
            r.spec_levels() == Seq::<u32>::empty(),
            r.spec_roots() == Seq::<Seq<char>>::empty(),
    {
        let r = Graph {
            nodes: Vec::new(),
            levels: Vec::new(),
            roots: Vec::new(),
            order_cache: None,
            index_cache: None,
        };
        proof {
            assert(r.spec_roots() =~= Seq::<Seq<char>>::empty());
        }
        r
    }

    /// The number of nodes in the graph.
    pub fn node_count(&self) -> (r: usize)
        ensures
            r == self.spec_nodes().len(),
    {
        self.nodes.len()
    }

    /// The root keys, in the order the roots were added.
    pub fn root_keys(&self) -> (r: &Vec<String>)
        ensures
            r.deep_view() == self.spec_roots(),
    {
        &self.roots
    }

    /// Finds the arena index of the node with the given key.
    fn find_index(&self, key: &str) -> (r: Option<usize>)
        ensures
            match r {
                Some(i) => i < self.spec_keys().len() && self.spec_keys()[i as int] == key@,
                None => !self.contains_key(key@),
            },
    {
        let mut i: usize = 0;
        while i < self.nodes.len()
            invariant
                i <= self.nodes.len(),
                forall|j: int| 0 <= j < i ==> self.spec_keys()[j] != key@,
            decreases self.nodes.len() - i,
        {
            if self.nodes[i].has_key(key) {
                return Some(i);
            }
            i += 1;
        }
        None
    }

    /// Whether the graph holds a node with the given key.
    pub fn contains(&self, key: &str) -> (r: bool)
        ensures
            r == self.contains_key(key@),
    {
        match self.find_index(key) {
            Some(i) => {
                assert(self.spec_keys()[i as int] == key@);
                true
            },
            None => false,
        }
    }

    /// A reference to the node with the given key, if present.
    pub fn get_node(&self, key: &str) -> (r: Option<&Node<T>>)
        requires
            self.wf(),
        ensures
            match r {
                Some(n) => self.contains_key(key@) && *n == self.spec_node(key@),
                None => !self.contains_key(key@),
            },
    {
        match self.find_index(key) {
            Some(i) => {
                proof {
                    self.lemma_index_of(key@, i as int);
                }
                Some(&self.nodes[i])
            },
            None => None,
        }
    }

    /// One more than the highest level among the nodes with the given keys,
    /// or zero if there are none.
    pub open spec fn spec_next_level(&self, ps: Seq<Seq<char>>) -> int
        decreases ps.len(),
    {
        if ps.len() == 0 {
            0
        } else {
            let rest = self.spec_next_level(ps.drop_last());
            let candidate = self.spec_level(ps.last()) as int + 1;
            if candidate > rest {
                candidate
            } else {
                rest
            }
        }
    }

    /// The next level lies strictly above the level of each of the keys.
    pub proof fn lemma_next_level_above(&self, ps: Seq<Seq<char>>, j: int)
        requires
            0 <= j < ps.len(),
        ensures
            self.spec_next_level(ps) > self.spec_level(ps[j]) as int,
        decreases ps.len(),
    {
        if j == ps.len() - 1 {
            assert(ps.last() == ps[j]);
        } else {
            self.lemma_next_level_above(ps.drop_last(), j);
            assert(ps.drop_last()[j] == ps[j]);
        }
    }

    /// Adds a node as a root, at level zero. Fails if the key is taken.
    pub fn add_root_node(&mut self, node: Node<T>) -> (r: Result<(), GraphError>)
        requires
            old(self).wf(),
            node.spec_parents().len() == 0,
        ensures
            final(self).wf(),
            match r {
                Ok(()) => {
                    &&& !old(self).contains_key(node.spec_key())
                    &&& final(self).spec_nodes() == old(self).spec_nodes().push(node)
                    &&& final(self).spec_keys() == old(self).spec_keys().push(node.spec_key())
                    &&& final(self).spec_levels() == old(self).spec_levels().push(0u32)
                    &&& final(self).spec_roots() == old(self).spec_roots().push(node.spec_key())
                },
                Err(GraphError::DuplicateNodeKey { key }) => {
                    &&& key@ == node.spec_key()
                    &&& old(self).contains_key(node.spec_key())
                    &&& *final(self) == *old(self)
                },
                Err(GraphError::MissingParent { .. }) => false,
            },
    {
        if self.contains(node.key()) {
            let key = String::from_str(node.key());
            return Err(GraphError::DuplicateNodeKey { key });
        }
        let key = String::from_str(node.key());
        self.order_cache = None;
        self.index_cache = None;
        let ghost oldroots = self.roots;
        self.roots.push(key);
        self.nodes.push(node);
        self.levels.push(0);
        proof {
            crate::keys::lemma_deep_view_push(oldroots, self.roots, self.roots@.last());
            assert(self.spec_keys() =~= old(self).spec_keys().push(node.spec_key()));
        }
        Ok(())
    }

    /// Records `child_key` as a child of the node at arena index `idx`,
    /// unless it is one already. Touches nothing else.
    fn link_child_at(&mut self, idx: usize, child_key: String)
        requires
            idx < old(self).nodes@.len(),
        ensures
            final(self).nodes@.len() == old(self).nodes@.len(),
            final(self).levels == old(self).levels,
            final(self).roots == old(self).roots,
            final(self).order_cache == old(self).order_cache,
            final(self).index_cache == old(self).index_cache,
            forall|i: int|
                0 <= i < old(self).nodes@.len() && i != idx ==> final(self).nodes@[i] == old(
                    self,
                ).nodes@[i],
            ({
                let on = old(self).nodes@[idx as int];
                let nn = final(self).nodes@[idx as int];
                &&& nn.spec_key() == on.spec_key()
                &&& nn.spec_content() == on.spec_content()
                &&& nn.spec_parents() == on.spec_parents()
                &&& (on.spec_children().contains(child_key@) ==> nn.spec_children()
                    == on.spec_children())
                &&& (!on.spec_children().contains(child_key@) ==> nn.spec_children()
                    == on.spec_children().push(child_key@))
            }),
    {
        let ghost oldnodes = self.nodes@;
        let mut n = self.nodes.remove(idx);
        n.link_child(child_key);
        let ghost linked = n;
        self.nodes.insert(idx, n);
        proof {
            assert forall|i: int| 0 <= i < self.nodes@.len() implies self.nodes@[i] == (
            if i == idx {
                linked
            } else {
                oldnodes[i]
            }) by {
                oldnodes.remove(idx as int).insert_ensures(idx as int, linked);
            }
        }
    }

    /// Adds a node. A node with no declared parents becomes a root at level
    /// zero. Otherwise every declared parent must already be in the graph;
    /// the node is linked as a child of each and sits one level above the
    /// highest parent. The key must be fresh, and on failure the graph is
    /// left unchanged.
    pub fn add_node(&mut self, node: Node<T>) -> (r: Result<(), GraphError>)
        requires
            old(self).wf(),
            old(self).spec_nodes().len() < u32::MAX as usize,
        ensures
            final(self).wf(),
            match r {
                Ok(()) => {
                    &&& !old(self).contains_key(node.spec_key())
                    &&& forall|j: int|
                        0 <= j < node.spec_parents().len() ==> old(self).contains_key(
                            #[trigger] node.spec_parents()[j],
                        )
                    &&& final(self).spec_keys() == old(self).spec_keys().push(node.spec_key())
                    &&& final(self).contains_key(node.spec_key())
                    &&& final(self).spec_levels().len() == old(self).spec_levels().len() + 1
                    &&& final(self).spec_node(node.spec_key()).spec_key() == node.spec_key()
                    &&& final(self).spec_node(node.spec_key()).spec_content()
                        == node.spec_content()
                    &&& final(self).spec_node(node.spec_key()).spec_parents()
                        == node.spec_parents()
                    &&& final(self).spec_node(node.spec_key()).spec_children()
                        == node.spec_children()
                    &&& final(self).spec_level(node.spec_key()) as int == old(
                        self,
                    ).spec_next_level(node.spec_parents())
                    &&& forall|j: int|
                        0 <= j < node.spec_parents().len() ==> (final(self).spec_level(
                            node.spec_key(),
                        ) as int) > (old(self).spec_level(
                            #[trigger] node.spec_parents()[j],
                        ) as int)
                    &&& forall|k: Seq<char>|
                        old(self).contains_key(k) ==> #[trigger] final(self).contains_key(k)
                    &&& forall|k: Seq<char>|
                        old(self).contains_key(k) ==> #[trigger] final(self).spec_level(k) == old(
                            self,
                        ).spec_level(k)
                    &&& forall|k: Seq<char>|
                        old(self).contains_key(k) ==> {
                            let on = old(self).spec_node(k);
                            let nn = #[trigger] final(self).spec_node(k);
                            &&& nn.spec_key() == on.spec_key()
                            &&& nn.spec_content() == on.spec_content()
                            &&& nn.spec_parents() == on.spec_parents()
                            &&& (node.spec_parents().contains(k)
                                && on.spec_children().contains(node.spec_key())
                                ==> nn.spec_children() == on.spec_children())
                            &&& (node.spec_parents().contains(k)
                                && !on.spec_children().contains(node.spec_key())
                                ==> nn.spec_children() == on.spec_children().push(node.spec_key()))
                            &&& (!node.spec_parents().contains(k) ==> nn.spec_children()
                                == on.spec_children())
                        }
                    &&& (node.spec_parents().len() == 0 ==> final(self).spec_roots() == old(
                        self,
                    ).spec_roots().push(node.spec_key()))
                    &&& (node.spec_parents().len() > 0 ==> final(self).spec_roots() == old(
                        self,
                    ).spec_roots())
                },
                Err(GraphError::DuplicateNodeKey { key }) => {
                    &&& key@ == node.spec_key()
                    &&& old(self).contains_key(node.spec_key())
                    &&& *final(self) == *old(self)
                },
                Err(GraphError::MissingParent { key }) => {
                    &&& !old(self).contains_key(node.spec_key())
                    &&& !old(self).contains_key(key@)
                    &&& node.spec_parents().contains(key@)
                    &&& *final(self) == *old(self)
                },
            },
    {
        if self.contains(node.key()) {
            let key = String::from_str(node.key());
            return Err(GraphError::DuplicateNodeKey { key });
        }
        let ghost ps = node.spec_parents();
        let ghost nk = node.spec_key();
        let parents = node.parent_keys();

        // Validate every parent and settle the level before touching anything.
        let mut level: u32 = 0;
        let mut pi: usize = 0;
        proof {
            assert(ps.take(0) =~= Seq::<Seq<char>>::empty());
        }
        while pi < parents.len()
            invariant
                old(self).wf(),
                pi <= parents.len(),
                *self == *old(self),
                parents.deep_view() == ps,
                ps == node.spec_parents(),
                nk == node.spec_key(),
                !old(self).contains_key(nk),
                level as int == old(self).spec_next_level(ps.take(pi as int)),
                level as int <= old(self).nodes@.len(),
                old(self).nodes@.len() < u32::MAX as usize,
                forall|j: int| 0 <= j < pi ==> old(self).contains_key(#[trigger] ps[j]),
            decreases parents.len() - pi,
        {
            match self.find_index(parents[pi].as_str()) {
                None => {
                    let key = parents[pi].clone();
                    proof {
                        assert(key@ == ps[pi as int]);
                        assert(node.spec_parents().contains(key@));
                    }
                    return Err(GraphError::MissingParent { key });
                },
                Some(idx) => {
                    proof {
                        self.lemma_index_of(ps[pi as int], idx as int);
                        assert(self.spec_level(ps[pi as int]) == self.levels@[idx as int]);
                        assert((self.levels@[idx as int] as int) <= idx as int);
                    }
                    let pl = self.levels[idx];
                    if pl + 1 > level {
                        level = pl + 1;
                    }
                    proof {
                        let t = ps.take(pi as int + 1);
                        assert(t.drop_last() =~= ps.take(pi as int));
                        assert(t.last() == ps[pi as int]);
                    }
                    pi += 1;
                },
            }
        }
        proof {
            assert(ps.take(parents.len() as int) =~= ps);
        }

        // Everything checked: link under each parent, then append the node.
        self.order_cache = None;
        self.index_cache = None;
        let key_str = String::from_str(node.key());
        let ghost g0 = *old(self);
        let mut pi2: usize = 0;
        proof {
            assert(ps.take(0) =~= Seq::<Seq<char>>::empty());
        }
        while pi2 < parents.len()
            invariant
                g0.wf(),
                g0 == *old(self),
                pi2 <= parents.len(),
                parents.deep_view() == ps,
                key_str@ == nk,
                forall|j: int| 0 <= j < ps.len() ==> g0.contains_key(#[trigger] ps[j]),
                self.nodes@.len() == g0.nodes@.len(),
                self.levels == g0.levels,
                self.roots == g0.roots,
                self.order_cache is None,
                self.index_cache is None,
                forall|i: int|
                    0 <= i < self.nodes@.len() ==> {
                        let on = g0.nodes@[i];
                        let nn = #[trigger] self.nodes@[i];
                        &&& nn.spec_key() == on.spec_key()
                        &&& nn.spec_content() == on.spec_content()
                        &&& nn.spec_parents() == on.spec_parents()
                        &&& (ps.take(pi2 as int).contains(on.spec_key())
                            && on.spec_children().contains(nk) ==> nn.spec_children()
                            == on.spec_children())
                        &&& (ps.take(pi2 as int).contains(on.spec_key())
                            && !on.spec_children().contains(nk) ==> nn.spec_children()
                            == on.spec_children().push(nk))
                        &&& (!ps.take(pi2 as int).contains(on.spec_key()) ==> nn == on)
                    },
            decreases parents.len() - pi2,
        {
            proof {
                assert(self.spec_keys() =~= g0.spec_keys());
            }
            match self.find_index(parents[pi2].as_str()) {
                None => {
                    proof {
                        assert(g0.contains_key(ps[pi2 as int]));
                        assert(false);
                    }
                },
                Some(idx) => {
                    let ghost presplit = self.nodes@;
                    proof {
                        assert(g0.spec_keys()[idx as int] == ps[pi2 as int]);
                    }
                    self.link_child_at(idx, key_str.clone());
                    proof {
                        let t0 = ps.take(pi2 as int);
                        let t1 = ps.take(pi2 as int + 1);
                        assert(t1 =~= t0.push(ps[pi2 as int]));
                        assert(t1[pi2 as int] == ps[pi2 as int]);
                        assert(t1.contains(ps[pi2 as int]));
                        assert forall|i: int| 0 <= i < self.nodes@.len() implies {
                            let on = g0.nodes@[i];
                            let nn = #[trigger] self.nodes@[i];
                            &&& nn.spec_key() == on.spec_key()
                            &&& nn.spec_content() == on.spec_content()
                            &&& nn.spec_parents() == on.spec_parents()
                            &&& (t1.contains(on.spec_key()) && on.spec_children().contains(nk)
                                ==> nn.spec_children() == on.spec_children())
                            &&& (t1.contains(on.spec_key()) && !on.spec_children().contains(nk)
                                ==> nn.spec_children() == on.spec_children().push(nk))
                            &&& (!t1.contains(on.spec_key()) ==> nn == on)
                        } by {
                            let on = g0.nodes@[i];
                            assert(g0.spec_keys()[i] == on.spec_key());
                            if i == idx as int {
                                assert(on.spec_key() == ps[pi2 as int]);
                                if t0.contains(on.spec_key()) {
                                    if !on.spec_children().contains(nk) {
                                        assert(presplit[i].spec_children()
                                            == on.spec_children().push(nk));
                                        assert(presplit[i].spec_children()[on.spec_children().len() as int]
                                            == nk);
                                    }
                                    assert(presplit[i].spec_children().contains(nk));
                                    assert(self.nodes@[i].spec_children()
                                        == presplit[i].spec_children());
                                } else {
                                    assert(presplit[i] == on);
                                }
                            } else {
                                // another node: its key differs from this parent's key
                                assert(g0.spec_keys()[idx as int] == ps[pi2 as int]);
                                if t1.contains(on.spec_key()) && !t0.contains(on.spec_key()) {
                                    assert(on.spec_key() == ps[pi2 as int]);
                                }
                                assert(self.nodes@[i] == presplit[i]);
                            }
                        }
                    }
                    pi2 += 1;
                },
            }
        }
        proof {
            assert(ps.take(parents.len() as int) =~= ps);
        }

        // Append the node itself, with its level, rooting it if parentless.
        let ghost oldroots = self.roots;
        let no_parents = parents.len() == 0;
        if no_parents {
            self.roots.push(key_str);
            proof {
                crate::keys::lemma_deep_view_push(oldroots, self.roots, self.roots@.last());
            }
        }
        let ghost prepush = self.nodes@;
        self.nodes.push(node);
        self.levels.push(level);
        proof {
            let fk = self.spec_keys();
            let n = prepush.len();
            assert(fk =~= g0.spec_keys().push(nk)) by {
                assert forall|i: int| 0 <= i < fk.len() implies fk[i] == g0.spec_keys().push(nk)[i]
                by {
                    if i < n {
                        assert(self.nodes@[i] == prepush[i]);
                    }
                }
            }
            // key uniqueness carries over, since the new key is fresh
            assert forall|i: int, j: int| 0 <= i < j < fk.len() implies fk[i] != fk[j] by {
                if j < n {
                    assert(g0.spec_keys()[i] != g0.spec_keys()[j]);
                } else {
                    assert(fk[j] == nk);
                    assert(!g0.contains_key(nk));
                    assert(g0.spec_keys()[i] == fk[i]);
                }
            }
            // the level bound holds of the old entries and of the new one
            assert forall|i: int|
                0 <= i < self.levels@.len() implies (#[trigger] self.levels@[i] as int) <= i by {
                if i < n {
                    assert(self.levels@[i] == g0.levels@[i]);
                    assert((g0.levels@[i] as int) <= i);
                }
            }
            assert(self.levels@.len() == self.nodes@.len());
            assert(self.wf());
            assert(fk[n as int] == nk);
            assert(self.contains_key(nk));
            self.lemma_index_of(nk, n as int);
            assert(self.spec_level(nk) == level);
            assert(self.spec_node(nk) == node);
            // facts about the keys that were already present
            assert forall|k: Seq<char>| g0.contains_key(k) implies #[trigger] self.contains_key(
                k,
            ) by {
                let i = g0.spec_index_of(k);
                assert(0 <= i < n && g0.spec_keys()[i] == k);
                assert(fk[i] == k);
            }
            assert forall|k: Seq<char>| g0.contains_key(k) implies #[trigger] self.spec_level(k)
                == g0.spec_level(k) by {
                let i = g0.spec_index_of(k);
                assert(0 <= i < n && g0.spec_keys()[i] == k);
                assert(fk[i] == k);
                self.lemma_index_of(k, i);
                g0.lemma_index_of(k, i);
            }
            assert forall|k: Seq<char>| g0.contains_key(k) implies {
                let on = g0.spec_node(k);
                let nn = #[trigger] self.spec_node(k);
                &&& nn.spec_key() == on.spec_key()
                &&& nn.spec_content() == on.spec_content()
                &&& nn.spec_parents() == on.spec_parents()
                &&& (ps.contains(k) && on.spec_children().contains(nk) ==> nn.spec_children()
                    == on.spec_children())
                &&& (ps.contains(k) && !on.spec_children().contains(nk) ==> nn.spec_children()
                    == on.spec_children().push(nk))
                &&& (!ps.contains(k) ==> nn.spec_children() == on.spec_children())
            } by {
                let i = g0.spec_index_of(k);
                assert(0 <= i < n && g0.spec_keys()[i] == k);
                assert(fk[i] == k);
                self.lemma_index_of(k, i);
                g0.lemma_index_of(k, i);
                assert(self.nodes@[i] == prepush[i]);
            }
            // level dominance over every parent
            assert forall|j: int| 0 <= j < ps.len() implies (self.spec_level(nk) as int) > (
            g0.spec_level(#[trigger] ps[j]) as int) by {
                g0.lemma_next_level_above(ps, j);
            }
        }
        Ok(())
    }

    /// Computes the visitation order from the topology, without caching.
    fn compute_order(&self) -> (r: Vec<NodeLevel>)
        requires
            self.levels@.len() == self.nodes@.len(),
        ensures
            entry_views(r@) == self.spec_visitation(),
    {
        let mut r: Vec<NodeLevel> = Vec::new();
        let mut i: usize = 0;
        proof {
            assert(entry_views(r@) =~= Seq::<(Seq<char>, u32)>::empty());
            assert(self.spec_entries().take(0) =~= Seq::<(Seq<char>, u32)>::empty());
        }
        while i < self.nodes.len()
            invariant
                i <= self.nodes@.len(),
                self.levels@.len() == self.nodes@.len(),
                sorted_by(entry_views(r@), entry_leq()),
                entry_views(r@).to_multiset() == self.spec_entries().take(i as int).to_multiset(),
            decreases self.nodes@.len() - i,
        {
            let key = String::from_str(self.nodes[i].key());
            let nl = NodeLevel::new(key, self.levels[i]);
            proof {
                assert(nl@ == self.spec_entries()[i as int]);
                assert(self.spec_entries().take(i as int + 1) =~= self.spec_entries().take(
                    i as int,
                ).push(self.spec_entries()[i as int]));
            }
            insert_level_sorted(&mut r, nl);
            i += 1;
        }
        proof {
            assert(self.spec_entries().take(self.nodes@.len() as int) =~= self.spec_entries());
            lemma_entry_le_total_ordering();
            self.spec_entries().lemma_sort_by_ensures(entry_leq());
            assert(entry_views(r@).to_multiset() == self.spec_entries().sort_by(
                entry_leq(),
            ).to_multiset());
            lemma_sorted_unique(
                entry_views(r@),
                self.spec_entries().sort_by(entry_leq()),
                entry_leq(),
            );
        }
        r
    }

    /// The visitation order: every node's key paired with its level, sorted
    /// by ascending level and, within a level, by ascending key. Served from
    /// the cache when one is present, else recomputed and cached.
    pub fn visitation_order(&mut self) -> (r: Vec<NodeLevel>)
        requires
            old(self).wf(),
        ensures
            final(self).wf(),
            final(self).same_topology(old(self)),
            entry_views(r@) == old(self).spec_visitation(),
    {
        if let Some(c) = &self.order_cache {
            let r = c.clone();
            proof {
                assert forall|k: int| 0 <= k < r@.len() implies r@[k] == c@[k] by {}
                assert(entry_views(r@) =~= entry_views(c@));
            }
            return r;
        }
        let r = self.compute_order();
        let c = r.clone();
        proof {
            assert forall|k: int| 0 <= k < c@.len() implies c@[k] == r@[k] by {}
            assert(entry_views(c@) =~= entry_views(r@));
        }
        self.order_cache = Some(c);
        proof {
            assert(self.spec_nodes() == old(self).spec_nodes());
            assert(self.spec_keys() == old(self).spec_keys());
            assert(self.spec_levels() == old(self).spec_levels());
            assert(self.spec_entries() =~= old(self).spec_entries());
        }
        r
    }

    /// The key index: the node keys in visitation order. Served from the
    /// cache when one is present, else derived and cached.
    pub fn nodes_by_key(&mut self) -> (r: Vec<String>)
        requires
            old(self).wf(),
        ensures
            final(self).wf(),
            final(self).same_topology(old(self)),
            r.deep_view() == old(self).spec_key_order(),
    {
        if let Some(c) = &self.index_cache {
            let r = c.clone();
            proof {
                assert forall|k: int| 0 <= k < r@.len() implies r@[k] == c@[k] by {}
                assert(r.deep_view() =~= c.deep_view());
            }
            return r;
        }
        let ord = self.visitation_order();
        let mut r: Vec<String> = Vec::new();
        let mut i: usize = 0;
        let ghost ko = old(self).spec_key_order();
        proof {
            assert(r.deep_view() =~= Seq::<Seq<char>>::empty());
            assert(ko.take(0) =~= Seq::<Seq<char>>::empty());
        }
        while i < ord.len()
            invariant
                i <= ord@.len(),
                ko == old(self).spec_key_order(),
                entry_views(ord@) == old(self).spec_visitation(),
                ko.len() == ord@.len(),
                r.deep_view() == ko.take(i as int),
            decreases ord@.len() - i,
        {
            let ghost oldr = r;
            let s = String::from_str(ord[i].key());
            let ghost sv = s;
            r.push(s);
            proof {
                crate::keys::lemma_deep_view_push(oldr, r, sv);
                assert(ko[i as int] == entry_views(ord@)[i as int].0);
                assert(sv@ == ord@[i as int]@.0);
                assert(ko.take(i as int + 1) =~= ko.take(i as int).push(ko[i as int]));
            }
            i += 1;
        }
        proof {
            assert(ko.take(ord@.len() as int) =~= ko);
        }
        let c = r.clone();
        proof {
            assert forall|k: int| 0 <= k < c@.len() implies c@[k] == r@[k] by {}
            assert(c.deep_view() =~= r.deep_view());
            assert(self.spec_entries() =~= old(self).spec_entries());
        }
        let ghost mid = *self;
        self.index_cache = Some(c);
        proof {
            assert(self.spec_nodes() == mid.spec_nodes());
            assert(self.spec_keys() == mid.spec_keys());
            assert(self.spec_levels() == mid.spec_levels());
            assert(self.spec_entries() =~= mid.spec_entries());
        }
        r
    }

    /// Each visitation entry names a node of the graph and carries exactly
    /// that node's level.
    pub proof fn lemma_visitation_entry(&self, i: int)
        requires
            self.wf(),
            0 <= i < self.spec_visitation().len(),
        ensures
            self.contains_key(self.spec_visitation()[i].0),
            self.spec_visitation()[i].1 == self.spec_level(self.spec_visitation()[i].0),
    {
        lemma_entry_le_total_ordering();
        self.spec_entries().lemma_sort_by_ensures(entry_leq());
        let v = self.spec_visitation()[i];
        assert(self.spec_visitation().contains(v));
        assert(self.spec_visitation().to_multiset().count(v) >= 1);
        assert(self.spec_entries().to_multiset().count(v) >= 1);
        assert(self.spec_entries().contains(v));
        let p = choose|p: int| 0 <= p < self.spec_entries().len() && self.spec_entries()[p] == v;
        assert(self.spec_keys()[p] == v.0);
        self.lemma_index_of(v.0, p);
    }

    /// An entry with a strictly lower level comes strictly earlier in the
    /// visitation order. Together with the level ordering that resolution
    /// establishes, every node is therefore visited strictly after all of
    /// its dependencies.
    pub proof fn lemma_visitation_level_order(&self, i: int, j: int)
        requires
            0 <= i < self.spec_visitation().len(),
            0 <= j < self.spec_visitation().len(),
            self.spec_visitation()[i].1 < self.spec_visitation()[j].1,
        ensures
            i < j,
    {
        lemma_entry_le_total_ordering();
        self.spec_entries().lemma_sort_by_ensures(entry_leq());
        if i > j {
            assert(entry_leq()(self.spec_visitation()[j], self.spec_visitation()[i]));
        }
    }

    /// The visitation order and the key index are pure functions of the
    /// topology: graphs with equal nodes, levels and roots have equal
    /// derived views. Hence repeated reads with no intervening mutation
    /// return equal results, and no read can reflect a superseded topology.
    pub proof fn lemma_views_pure(g1: &Graph<T>, g2: &Graph<T>)
        requires
            g1.same_topology(g2),
        ensures
            g1.spec_visitation() == g2.spec_visitation(),
            g1.spec_key_order() == g2.spec_key_order(),
    {
        assert(g1.spec_entries() =~= g2.spec_entries());
    }

    /// The level of the node with the given key, if present.
    pub fn get_level(&self, key: &str) -> (r: Option<u32>)
        requires
            self.wf(),
        ensures
            match r {
                Some(l) => self.contains_key(key@) && l == self.spec_level(key@),
                None => !self.contains_key(key@),
            },
    {
        match self.find_index(key) {
            Some(i) => {
                proof {
                    self.lemma_index_of(key@, i as int);
                }
                Some(self.levels[i])
            },
            None => None,
        }
    }
}

} // verus!
