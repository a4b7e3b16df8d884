//! A graph vertex: a key, optional content, owned child links and
//! non-owning parent links.
//!
//! Children and parents are recorded as keys. A child key names a vertex the
//! node owns an edge to; a parent key is a pure back-reference and never
//! keeps its target alive. Two nodes are equal exactly when their keys are
//! equal.

use vstd::prelude::*;

use crate::keys::key_leq;
use crate::keys::lemma_deep_view_push;
use crate::keys::sorted_strings;
use crate::keys::str_eq;
use crate::traits::NodeContent;

verus! {

use vstd::relations::sorted_by;

/// A graph vertex: a key, optional associated content, owned child keys and
/// non-owning parent keys.
pub struct Node<T: NodeContent> {
    key: String,
    content: Option<T>,
    children: Vec<String>,
    parents: Vec<String>,
}

impl<T: NodeContent> Node<T> {
    /// The node's key, as a character sequence.
    pub closed spec fn spec_key(&self) -> Seq<char> {
        self.key@
    }

    /// The node's content.
    pub closed spec fn spec_content(&self) -> Option<T> {
        self.content
    }

    /// The declared child keys, in insertion order.
    pub closed spec fn spec_children(&self) -> Seq<Seq<char>> {
        self.children.deep_view()
    }

    /// The declared parent keys, in insertion order.
    pub closed spec fn spec_parents(&self) -> Seq<Seq<char>> {
        self.parents.deep_view()
    }

    /// Creates a node with no children and no parents.
    pub fn new(key: String, content: Option<T>) -> (r: Self)
        ensures
            r.spec_key() == key@,
            r.spec_content() == content,
            r.spec_children() == Seq::<Seq<char>>::empty(),
            r.spec_parents() == Seq::<Seq<char>>::empty(),
    {
        let r = Node { key, content, children: Vec::new(), parents: Vec::new() };
        proof {
            assert(r.spec_children() =~= Seq::<Seq<char>>::empty());
            assert(r.spec_parents() =~= Seq::<Seq<char>>::empty());
        }
        r
    }

    pub fn key(&self) -> (r: &str)
        ensures
            r@ == self.spec_key(),
    {
        self.key.as_str()
    }

    /// Whether the node's key reads `k`.
    pub fn has_key(&self, k: &str) -> (r: bool)
        ensures
            r == (self.spec_key() == k@),
    {
        str_eq(self.key.as_str(), k)
    }

    /// A reference to the node's content.
    pub fn content(&self) -> (r: &Option<T>)
        ensures
            *r == self.spec_content(),
    {
        &self.content
    }

    /// Registers `child` as an owned child of `parent`, and `parent` as a
    /// non-owning parent reference of `child`.
    pub fn add_child(parent: &mut Self, child: &mut Self)
        ensures
            final(parent).spec_key() == old(parent).spec_key(),
            final(parent).spec_content() == old(parent).spec_content(),
            final(parent).spec_parents() == old(parent).spec_parents(),
            final(parent).spec_children() == old(parent).spec_children().push(
                old(child).spec_key(),
            ),
            final(child).spec_key() == old(child).spec_key(),
            final(child).spec_content() == old(child).spec_content(),
            final(child).spec_children() == old(child).spec_children(),
            final(child).spec_parents() == old(child).spec_parents().push(old(parent).spec_key()),
    {
        let ghost oldparents = child.parents;
        let ghost oldchildren = parent.children;
        child.parents.push(parent.key.clone());
        parent.children.push(child.key.clone());
        proof {
            lemma_deep_view_push(oldparents, child.parents, parent.key);
            lemma_deep_view_push(oldchildren, parent.children, child.key);
        }
    }

    /// Declares the node with the given key as a parent of this node, without
    /// touching the parent's own child list.
    pub fn add_parent(&mut self, parent_key: String)
        ensures
            final(self).spec_key() == old(self).spec_key(),
            final(self).spec_content() == old(self).spec_content(),
            final(self).spec_children() == old(self).spec_children(),
            final(self).spec_parents() == old(self).spec_parents().push(parent_key@),
    {
        let ghost oldparents = self.parents;
        let ghost pk = parent_key;
        self.parents.push(parent_key);
        proof {
            lemma_deep_view_push(oldparents, self.parents, pk);
        }
    }

    /// Records `child_key` as a child of this node unless it is already one.
    pub fn link_child(&mut self, child_key: String)
        ensures
            final(self).spec_key() == old(self).spec_key(),
            final(self).spec_content() == old(self).spec_content(),
            final(self).spec_parents() == old(self).spec_parents(),
            old(self).spec_children().contains(child_key@) ==> final(self).spec_children() == old(
                self,
            ).spec_children(),
            !old(self).spec_children().contains(child_key@) ==> final(self).spec_children() == old(
                self,
            ).spec_children().push(child_key@),
    {
        let ghost oldchildren = self.children;
        let ghost ck = child_key;
        if !crate::keys::contains_key_string(&self.children, &child_key) {
            self.children.push(child_key);
            proof {
                lemma_deep_view_push(oldchildren, self.children, ck);
            }
        }
    }

    /// Removes and returns the first child with the given key, or `None` if
    /// no child carries it.
    pub fn remove_child(parent: &mut Self, child_key: String) -> (r: Option<String>)
        ensures
            final(parent).spec_key() == old(parent).spec_key(),
            final(parent).spec_content() == old(parent).spec_content(),
            final(parent).spec_parents() == old(parent).spec_parents(),
            match old(parent).spec_children().index_of_first(child_key@) {
                Some(i) => r matches Some(k) && k@ == child_key@ && final(parent).spec_children()
                    == old(parent).spec_children().remove(i),
                None => r is None && final(parent).spec_children() == old(parent).spec_children(),
            },
    {
        proof {
            old(parent).spec_children().index_of_first_ensures(child_key@);
        }
        let mut i: usize = 0;
        while i < parent.children.len()
            invariant
                i <= parent.children.len(),
                *parent == *old(parent),
                forall|j: int| 0 <= j < i ==> parent.spec_children()[j] != child_key@,
            decreases parent.children.len() - i,
        {
            if parent.children[i] == child_key {
                let ghost oldchildren = parent.children;
                assert(parent.spec_children()[i as int] == child_key@);
                proof {
                    let s = old(parent).spec_children();
                    assert(s.contains(child_key@));
                    s.index_of_first_ensures(child_key@);
                    let idx = s.index_of_first(child_key@).unwrap();
                    assert(s[idx] == child_key@);
                    if idx < i as int {
                        assert(s[idx] != child_key@);
                    }
                    if idx > i as int {
                        assert(s[i as int] != child_key@);
                    }
                    assert(s.index_of_first(child_key@) == Some(i as int));
                }
                let removed = parent.children.remove(i);
                proof {
                    let dv = parent.children.deep_view();
                    let olddv = oldchildren.deep_view();
                    assert forall|k: int| 0 <= k < dv.len() implies dv[k] == olddv.remove(
                        i as int,
                    )[k] by {
                        assert(dv[k] == parent.children@[k]@);
                    }
                    assert(dv =~= olddv.remove(i as int));
                }
                return Some(removed);
            }
            i += 1;
        }
        assert(!old(parent).spec_children().contains(child_key@));
        None
    }

    /// Returns a copy of the child keys, sorted ascending, independent of the
    /// order in which children were added.
    pub fn get_children(&self) -> (r: Vec<String>)
        ensures
            sorted_by(r.deep_view(), key_leq()),
            r.deep_view().to_multiset() == self.spec_children().to_multiset(),
    {
        sorted_strings(&self.children)
    }

    /// Returns a copy of the parent keys, sorted ascending.
    pub fn get_parents(&self) -> (r: Vec<String>)
        ensures
            sorted_by(r.deep_view(), key_leq()),
            r.deep_view().to_multiset() == self.spec_parents().to_multiset(),
    {
        sorted_strings(&self.parents)
    }

    /// A reference to the declared parent keys, in insertion order.
    pub fn parent_keys(&self) -> (r: &Vec<String>)
        ensures
            r.deep_view() == self.spec_parents(),
    {
        &self.parents
    }
}

impl<T: NodeContent> PartialEq for Node<T> {
    /// Two nodes are equal exactly when their keys are equal.
    fn eq(&self, other: &Self) -> (r: bool) {
        self.key == other.key
    }
}

impl<T: NodeContent> vstd::std_specs::cmp::PartialEqSpecImpl for Node<T> {
    open spec fn obeys_eq_spec() -> bool {
        true
    }

    open spec fn eq_spec(&self, other: &Self) -> bool {
        self.spec_key() == other.spec_key()
    }
}

} // verus!
