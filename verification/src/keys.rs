//! Ordering, joining and searching of string keys.
//!
//! Node keys and asset identifiers are strings; this module gives them a
//! lexicographic order over their character sequences, proves that the order
//! is total, and provides the verified string routines the rest of the crate
//! builds on: comparison, membership, joining of key segments, and insertion
//! into a sorted vector.

use vstd::prelude::*;

verus! {

use vstd::relations::{sorted_by, total_ordering, transitive};
use vstd::string::StrSliceExecFns;
use vstd::string::StringExecFns;

broadcast use vstd::seq_lib::group_to_multiset_ensures;

/// Strict lexicographic order on key views: `a` comes before `b`.
pub open spec fn key_lt(a: Seq<char>, b: Seq<char>) -> bool
    decreases a.len(),
{
    if b.len() == 0 {
        false
    } else if a.len() == 0 {
        true
    } else if (a[0] as int) < (b[0] as int) {
        true
    } else if a[0] == b[0] {
        key_lt(a.drop_first(), b.drop_first())
    } else {
        false
    }
}

/// Reflexive closure of `key_lt`.
pub open spec fn key_le(a: Seq<char>, b: Seq<char>) -> bool {
    key_lt(a, b) || a == b
}

/// `key_le` as a function value, for use with `sorted_by` and `sort_by`.
pub open spec fn key_leq() -> spec_fn(Seq<char>, Seq<char>) -> bool {
    |a: Seq<char>, b: Seq<char>| key_le(a, b)
}

pub proof fn lemma_key_lt_asymmetric(a: Seq<char>, b: Seq<char>)
    ensures
        !(key_lt(a, b) && key_lt(b, a)),
    decreases a.len(),
{
    if a.len() > 0 && b.len() > 0 && a[0] == b[0] {
        lemma_key_lt_asymmetric(a.drop_first(), b.drop_first());
    }
}

pub proof fn lemma_key_lt_connected(a: Seq<char>, b: Seq<char>)
    ensures
        key_lt(a, b) || key_lt(b, a) || a == b,
    decreases a.len(),
{
    if a.len() == 0 && b.len() == 0 {
        assert(a =~= b);
    } else if a.len() == 0 {
        assert(key_lt(a, b));
    } else if b.len() == 0 {
        assert(key_lt(b, a));
    } else if a[0] != b[0] {
        assert(a[0] as int != b[0] as int);
        if (a[0] as int) < (b[0] as int) {
            assert(key_lt(a, b));
        } else {
            assert(key_lt(b, a));
        }
    } else if a.len() > 0 && b.len() > 0 && a[0] == b[0] {
        lemma_key_lt_connected(a.drop_first(), b.drop_first());
        if a.drop_first() == b.drop_first() {
            assert(a.drop_first().len() == b.drop_first().len());
            assert(a.len() == b.len());
            assert forall|j: int| 0 <= j < a.len() implies a[j] == b[j] by {
                if j > 0 {
                    assert(a[j] == a.drop_first()[j - 1]);
                    assert(b[j] == b.drop_first()[j - 1]);
                }
            }
            assert(a =~= b);
        }
    }
}

pub proof fn lemma_key_lt_transitive(a: Seq<char>, b: Seq<char>, c: Seq<char>)
    ensures
        key_lt(a, b) && key_lt(b, c) ==> key_lt(a, c),
    decreases a.len(),
{
    if key_lt(a, b) && key_lt(b, c) && a.len() > 0 && b.len() > 0 && c.len() > 0 && a[0] == b[0]
        && b[0] == c[0] {
        lemma_key_lt_transitive(a.drop_first(), b.drop_first(), c.drop_first());
    }
}

/// `key_le` is a total order on key views.
pub proof fn lemma_key_le_total_ordering()
    ensures
        total_ordering(key_leq()),
{
    let leq = key_leq();
    assert forall|a: Seq<char>, b: Seq<char>| #[trigger] leq(a, b) && #[trigger] leq(b, a) implies a
        == b by {
        lemma_key_lt_asymmetric(a, b);
    }
    assert forall|a: Seq<char>, b: Seq<char>, c: Seq<char>|
        #[trigger] leq(a, b) && #[trigger] leq(b, c) implies leq(a, c) by {
        lemma_key_lt_transitive(a, b, c);
    }
    assert forall|a: Seq<char>, b: Seq<char>| #[trigger] leq(a, b) || #[trigger] leq(b, a) by {
        lemma_key_lt_connected(a, b);
    }
}

/// Decides `key_le` on two string slices.
pub fn str_key_le(a: &str, b: &str) -> (r: bool)
    ensures
        r == key_le(a@, b@),
{
    let alen: usize = a.unicode_len();
    let blen: usize = b.unicode_len();
    let mut i: usize = 0;
    proof {
        assert(a@.skip(0) =~= a@);
        assert(b@.skip(0) =~= b@);
    }
    while i < alen && i < blen
        invariant
            i <= alen,
            i <= blen,
            alen == a@.len(),
            blen == b@.len(),
            key_lt(a@, b@) == key_lt(a@.skip(i as int), b@.skip(i as int)),
            forall|j: int| 0 <= j < i ==> a@[j] == b@[j],
        decreases alen - i,
    {
        let ca: char = a.get_char(i);
        let cb: char = b.get_char(i);
        if ca == cb {
            proof {
                assert(a@.skip(i as int).drop_first() =~= a@.skip(i as int + 1));
                assert(b@.skip(i as int).drop_first() =~= b@.skip(i as int + 1));
            }
            i += 1;
        } else if ca < cb {
            proof {
                assert(key_lt(a@.skip(i as int), b@.skip(i as int)));
            }
            return true;
        } else {
            proof {
                assert(!key_lt(a@.skip(i as int), b@.skip(i as int)));
                assert(a@[i as int] != b@[i as int]);
            }
            return false;
        }
    }
    if alen < blen {
        proof {
            assert(key_lt(a@.skip(i as int), b@.skip(i as int)));
        }
        true
    } else if alen == blen {
        proof {
            assert(a@ =~= b@);
        }
        true
    } else {
        proof {
            assert(!key_lt(a@.skip(i as int), b@.skip(i as int)));
            assert(a@.len() != b@.len());
        }
        false
    }
}

/// Whether the view of `x` occurs among the views of `v`'s elements.
pub fn contains_key_string(v: &Vec<String>, x: &String) -> (r: bool)
    ensures
        r == v.deep_view().contains(x@),
{
    let mut i: usize = 0;
    while i < v.len()
        invariant
            i <= v.len(),
            forall|j: int| 0 <= j < i ==> v.deep_view()[j] != x@,
        decreases v.len() - i,
    {
        if v[i] == *x {
            assert(v.deep_view()[i as int] == x@);
            return true;
        }
        i += 1;
    }
    false
}

/// Joins a sequence of key segments with a separator, in spec form.
pub open spec fn spec_join(parts: Seq<Seq<char>>, sep: Seq<char>) -> Seq<char>
    decreases parts.len(),
{
    if parts.len() == 0 {
        Seq::empty()
    } else if parts.len() == 1 {
        parts[0]
    } else {
        parts[0] + sep + spec_join(parts.drop_first(), sep)
    }
}

pub proof fn lemma_spec_join_push(parts: Seq<Seq<char>>, sep: Seq<char>, x: Seq<char>)
    ensures
        parts.len() == 0 ==> spec_join(parts.push(x), sep) == x,
        parts.len() > 0 ==> spec_join(parts.push(x), sep) == spec_join(parts, sep) + sep + x,
    decreases parts.len(),
{
    if parts.len() == 0 {
        assert(parts.push(x)[0] == x);
    } else if parts.len() == 1 {
        let single = Seq::<Seq<char>>::empty().push(x);
        assert(parts.push(x).drop_first() =~= single);
        assert(spec_join(single, sep) == x);
        assert(spec_join(parts.push(x), sep) == parts.push(x)[0] + sep + spec_join(
            parts.push(x).drop_first(),
            sep,
        ));
        assert(parts.push(x)[0] == parts[0]);
    } else {
        assert(parts.push(x).drop_first() =~= parts.drop_first().push(x));
        lemma_spec_join_push(parts.drop_first(), sep, x);
        assert(parts[0] + sep + (spec_join(parts.drop_first(), sep) + sep + x) =~= (parts[0] + sep
            + spec_join(parts.drop_first(), sep)) + sep + x);
    }
}

/// Joins key segments with a separator into one flat identifier string.
pub fn join_segments(parts: &Vec<String>, sep: &str) -> (r: String)
    ensures
        r@ == spec_join(parts.deep_view(), sep@),
{
    let mut r = String::new();
    let mut i: usize = 0;
    while i < parts.len()
        invariant
            i <= parts.len(),
            r@ == spec_join(parts.deep_view().take(i as int), sep@),
        decreases parts.len() - i,
    {
        if i > 0 {
            r.append(sep);
        }
        r.append(parts[i].as_str());
        proof {
            let dv = parts.deep_view();
            assert(dv.take(i as int + 1) =~= dv.take(i as int).push(dv[i as int]));
            lemma_spec_join_push(dv.take(i as int), sep@, dv[i as int]);
        }
        i += 1;
    }
    proof {
        assert(parts.deep_view().take(parts.len() as int) =~= parts.deep_view());
    }
    r
}

/// Inserting an element at the right position keeps a sorted sequence sorted
/// and adds exactly that element to its multiset.
pub proof fn lemma_sorted_insert<A>(s: Seq<A>, i: int, x: A, leq: spec_fn(A, A) -> bool)
    requires
        transitive(leq),
        sorted_by(s, leq),
        0 <= i <= s.len(),
        forall|j: int| 0 <= j < i ==> leq(#[trigger] s[j], x),
        i < s.len() ==> leq(x, s[i]),
    ensures
        sorted_by(s.insert(i, x), leq),
        s.insert(i, x).to_multiset() == s.to_multiset().insert(x),
{
    let t = s.insert(i, x);
    s.insert_ensures(i, x);
    assert forall|p: int, q: int| 0 <= p < q < t.len() implies #[trigger] leq(t[p], t[q]) by {
        if q < i {
            assert(leq(s[p], s[q]));
        } else if q == i {
            assert(leq(s[p], x));
        } else if p < i {
            assert(leq(s[p], s[q - 1]));
        } else if p == i {
            if q - 1 > i {
                assert(leq(s[i], s[q - 1]));
            }
        } else {
            assert(leq(s[p - 1], s[q - 1]));
        }
    }
}

/// Inserts a string into a vector sorted by `key_le`, keeping it sorted.
pub fn insert_string_sorted(v: &mut Vec<String>, x: String)
    requires
        sorted_by(old(v).deep_view(), key_leq()),
    ensures
        sorted_by(final(v).deep_view(), key_leq()),
        final(v).deep_view().to_multiset() == old(v).deep_view().to_multiset().insert(x@),
{
    let mut i: usize = 0;
    while i < v.len() && str_key_le(v[i].as_str(), x.as_str())
        invariant
            i <= v.len(),
            *v == *old(v),
            forall|j: int| 0 <= j < i ==> key_le(#[trigger] v.deep_view()[j], x@),
        decreases v.len() - i,
    {
        i += 1;
    }
    let ghost olddv = v.deep_view();
    let ghost ii = i as int;
    proof {
        lemma_key_le_total_ordering();
        if ii < olddv.len() {
            lemma_key_lt_connected(x@, olddv[ii]);
            assert(key_lt(x@, olddv[ii]));
        }
        assert(forall|j: int| 0 <= j < ii ==> key_leq()(#[trigger] olddv[j], x@));
        lemma_sorted_insert(olddv, ii, x@, key_leq());
    }
    let ghost xx = x@;
    v.insert(i, x);
    proof {
        let dv = v.deep_view();
        assert forall|k: int| 0 <= k < dv.len() implies dv[k] == olddv.insert(ii, xx)[k] by {
            olddv.insert_ensures(ii, xx);
            assert(dv[k] == v@[k]@);
        }
        assert(dv =~= olddv.insert(ii, xx));
    }
}

/// Decides whether two string slices have equal character sequences.
pub fn str_eq(a: &str, b: &str) -> (r: bool)
    ensures
        r == (a@ == b@),
{
    let le = str_key_le(a, b);
    let ge = str_key_le(b, a);
    proof {
        lemma_key_lt_asymmetric(a@, b@);
    }
    le && ge
}

/// Returns a copy of the given strings, sorted ascending by `key_le`.
pub fn sorted_strings(v: &Vec<String>) -> (r: Vec<String>)
    ensures
        sorted_by(r.deep_view(), key_leq()),
        r.deep_view().to_multiset() == v.deep_view().to_multiset(),
{
    let mut r: Vec<String> = Vec::new();
    let mut i: usize = 0;
    proof {
        assert(r.deep_view() =~= Seq::<Seq<char>>::empty());
        assert(v.deep_view().take(0) =~= Seq::<Seq<char>>::empty());
    }
    while i < v.len()
        invariant
            i <= v.len(),
            sorted_by(r.deep_view(), key_leq()),
            r.deep_view().to_multiset() == v.deep_view().take(i as int).to_multiset(),
        decreases v.len() - i,
    {
        let s = v[i].clone();
        proof {
            assert(s@ == v.deep_view()[i as int]);
            assert(v.deep_view().take(i as int + 1) =~= v.deep_view().take(i as int).push(
                v.deep_view()[i as int],
            ));
        }
        insert_string_sorted(&mut r, s);
        i += 1;
    }
    proof {
        assert(v.deep_view().take(v.len() as int) =~= v.deep_view());
    }
    r
}

/// Pushing onto a string vector pushes the string's view onto the deep view.
pub proof fn lemma_deep_view_push(a: Vec<String>, b: Vec<String>, x: String)
    requires
        b@ == a@.push(x),
    ensures
        b.deep_view() == a.deep_view().push(x@),
{
    assert forall|k: int| 0 <= k < b.deep_view().len() implies b.deep_view()[k]
        == a.deep_view().push(x@)[k] by {
        assert(b.deep_view()[k] == b@[k]@);
    }
    assert(b.deep_view() =~= a.deep_view().push(x@));
}

} // verus!
