//! The element registry: an insertion-ordered mapping from identifier to
//! element, backed by `indexmap::IndexMap` and modeled as a sequence of
//! key-value pairs in insertion order.

use vstd::prelude::*;
use indexmap::IndexMap;
use crate::rdf::{Element, ElementV};

verus! {

#[verifier::external_type_specification]
#[verifier::external_body]
#[verifier::reject_recursive_types(K)]
#[verifier::reject_recursive_types(V)]
#[verifier::reject_recursive_types(S)]
pub struct ExIndexMap<K, V, S>(IndexMap<K, V, S>);

/// What the registry holds: its key-value pairs, by view, in insertion order.
pub uninterp spec fn entries(m: IndexMap<String, Element>) -> Seq<(Seq<char>, ElementV)>;

/// Whether position `i` of `s` holds key `k`.
pub open spec fn key_at(s: Seq<(Seq<char>, ElementV)>, k: Seq<char>, i: int) -> bool {
    0 <= i < s.len() && s[i].0 == k
}

/// Whether some position of `s` holds key `k`.
pub open spec fn has_key(s: Seq<(Seq<char>, ElementV)>, k: Seq<char>) -> bool {
    exists|i: int| key_at(s, k, i)
}

/// One insertion into the ordered pair sequence: a fresh key is appended
/// last; an existing key keeps its place and only its value changes.
pub open spec fn spec_insert(
    s: Seq<(Seq<char>, ElementV)>,
    k: Seq<char>,
    v: ElementV,
) -> Seq<(Seq<char>, ElementV)> {
    if has_key(s, k) {
        let i = choose|i: int| key_at(s, k, i);
        s.update(i, (k, v))
    } else {
        s.push((k, v))
    }
}

/// Relies on indexmap::IndexMap::new: a freshly created map is empty.
#[verifier::external_body]
pub fn registry_new() -> (r: IndexMap<String, Element>)
    ensures
        entries(r) == Seq::<(Seq<char>, ElementV)>::empty(),
{
    IndexMap::new()
}

/// Relies on indexmap::IndexMap::insert: a pair with a new key is appended
/// last in order; a pair whose key already exists keeps its place in the
/// order and only its value is updated.
#[verifier::external_body]
pub fn registry_insert(m: &mut IndexMap<String, Element>, k: String, v: Element)
    ensures
        entries(*final(m)) == spec_insert(entries(*old(m)), k@, v@),
{
    m.insert(k, v);
}

/// All pairs of `ps` inserted into `s` in order, first to last.
pub open spec fn spec_insert_all(
    s: Seq<(Seq<char>, ElementV)>,
    ps: Seq<(Seq<char>, ElementV)>,
) -> Seq<(Seq<char>, ElementV)>
    decreases ps.len(),
{
    if ps.len() == 0 {
        s
    } else {
        spec_insert_all(spec_insert(s, ps[0].0, ps[0].1), ps.drop_first())
    }
}

/// Inserting a concatenation is inserting the parts in turn.
pub proof fn lemma_insert_all_concat(
    s: Seq<(Seq<char>, ElementV)>,
    a: Seq<(Seq<char>, ElementV)>,
    b: Seq<(Seq<char>, ElementV)>,
)
    ensures
        spec_insert_all(s, a + b) == spec_insert_all(spec_insert_all(s, a), b),
    decreases a.len(),
{
    if a.len() == 0 {
        assert(a + b =~= b);
    } else {
        assert((a + b)[0] == a[0]);
        assert((a + b).drop_first() =~= a.drop_first() + b);
        lemma_insert_all_concat(spec_insert(s, a[0].0, a[0].1), a.drop_first(), b);
    }
}

/// All keys of `s` are pairwise distinct.
pub open spec fn distinct_keys(s: Seq<(Seq<char>, ElementV)>) -> bool {
    forall|i: int, j: int|
        0 <= i < s.len() && 0 <= j < s.len() && i != j ==> (#[trigger] s[i]).0 != (
        #[trigger] s[j]).0
}

/// One insertion keeps the registry's keys distinct.
pub proof fn lemma_insert_distinct(s: Seq<(Seq<char>, ElementV)>, k: Seq<char>, v: ElementV)
    requires
        distinct_keys(s),
    ensures
        distinct_keys(spec_insert(s, k, v)),
{
    if has_key(s, k) {
        let i = choose|i: int| key_at(s, k, i);
        assert(spec_insert(s, k, v) =~= s.update(i, (k, v)));
        assert forall|p: int, q: int|
            0 <= p < s.len() && 0 <= q < s.len() && p != q implies (#[trigger] s.update(
            i,
            (k, v),
        )[p]).0 != (#[trigger] s.update(i, (k, v))[q]).0 by {
            if p == i {
                assert(s.update(i, (k, v))[q] == s[q]);
                assert(s[i].0 == k);
            } else if q == i {
                assert(s.update(i, (k, v))[p] == s[p]);
                assert(s[i].0 == k);
            }
        }
    } else {
        assert forall|p: int, q: int|
            0 <= p < s.len() + 1 && 0 <= q < s.len() + 1 && p != q implies (#[trigger] s.push(
            (k, v),
        )[p]).0 != (#[trigger] s.push((k, v))[q]).0 by {
            if p == s.len() {
                assert(s.push((k, v))[q] == s[q]);
                assert(!key_at(s, k, q));
            } else if q == s.len() {
                assert(s.push((k, v))[p] == s[p]);
                assert(!key_at(s, k, p));
            }
        }
    }
}

/// Inserting any pair sequence keeps the registry's keys distinct.
pub proof fn lemma_insert_all_distinct(
    s: Seq<(Seq<char>, ElementV)>,
    ps: Seq<(Seq<char>, ElementV)>,
)
    requires
        distinct_keys(s),
    ensures
        distinct_keys(spec_insert_all(s, ps)),
    decreases ps.len(),
{
    if ps.len() > 0 {
        lemma_insert_distinct(s, ps[0].0, ps[0].1);
        lemma_insert_all_distinct(spec_insert(s, ps[0].0, ps[0].1), ps.drop_first());
    }
}

/// When the inserted keys are pairwise distinct and none of them is already
/// present, insertion is plain concatenation: the registry lists the pairs in
/// insertion order.
pub proof fn lemma_insert_all_fresh(
    s: Seq<(Seq<char>, ElementV)>,
    ps: Seq<(Seq<char>, ElementV)>,
)
    requires
        forall|i: int| 0 <= i < ps.len() ==> !has_key(s, (#[trigger] ps[i]).0),
        forall|i: int, j: int|
            0 <= i < ps.len() && 0 <= j < ps.len() && i != j ==> (#[trigger] ps[i]).0 != (
            #[trigger] ps[j]).0,
    ensures
        spec_insert_all(s, ps) == s + ps,
    decreases ps.len(),
{
    if ps.len() == 0 {
        assert(s + ps =~= s);
    } else {
        let s1 = spec_insert(s, ps[0].0, ps[0].1);
        assert(s1 =~= s.push((ps[0].0, ps[0].1)));
        assert(s1 =~= s + seq![ps[0]]);
        assert forall|i: int| 0 <= i < ps.drop_first().len() implies !has_key(
            s1,
            (#[trigger] ps.drop_first()[i]).0,
        ) by {
            let k = ps.drop_first()[i].0;
            assert(ps.drop_first()[i] == ps[i + 1]);
            if has_key(s1, k) {
                let j = choose|j: int| key_at(s1, k, j);
                if j < s.len() {
                    assert(key_at(s, k, j));
                } else {
                    assert(s1[j].0 == ps[0].0);
                }
            }
        }
        lemma_insert_all_fresh(s1, ps.drop_first());
        assert(s + seq![ps[0]] + ps.drop_first() =~= s + ps);
    }
}

/// Every pair put into the registry comes from the inserted pairs or was
/// already present, except that an overwritten pair carries the old key's
/// equal view: a property of all inserted pairs and all present pairs holds
/// of all pairs afterward.
pub proof fn lemma_insert_all_pairs(
    s: Seq<(Seq<char>, ElementV)>,
    ps: Seq<(Seq<char>, ElementV)>,
    p: spec_fn((Seq<char>, ElementV)) -> bool,
)
    requires
        forall|i: int| 0 <= i < s.len() ==> p(#[trigger] s[i]),
        forall|i: int| 0 <= i < ps.len() ==> p(#[trigger] ps[i]),
    ensures
        forall|i: int|
            0 <= i < spec_insert_all(s, ps).len() ==> p(#[trigger] spec_insert_all(s, ps)[i]),
    decreases ps.len(),
{
    if ps.len() > 0 {
        let s1 = spec_insert(s, ps[0].0, ps[0].1);
        assert forall|i: int| 0 <= i < s1.len() implies p(#[trigger] s1[i]) by {
            if has_key(s, ps[0].0) {
                let j = choose|j: int| key_at(s, ps[0].0, j);
                if i != j {
                    assert(s1[i] == s[i]);
                } else {
                    assert(s1[i] == (ps[0].0, ps[0].1));
                    assert(s1[i] == ps[0]);
                }
            } else {
                if i < s.len() {
                    assert(s1[i] == s[i]);
                } else {
                    assert(s1[i] == (ps[0].0, ps[0].1));
                    assert(s1[i] == ps[0]);
                }
            }
        }
        assert(forall|i: int| 0 <= i < ps.drop_first().len() ==> p(#[trigger] ps.drop_first()[i]));
        lemma_insert_all_pairs(s1, ps.drop_first(), p);
        assert(spec_insert_all(s, ps) == spec_insert_all(s1, ps.drop_first()));
    }
}

} // verus!
