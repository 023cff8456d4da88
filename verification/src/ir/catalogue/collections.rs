//! Contracts for the std collection methods that the catalogue uses and vstd leaves unspecified.
use std::collections::{BTreeMap, BTreeSet};
use vstd::prelude::*;
use vstd::std_specs::iter::IteratorSpec;

verus! {

/// Calls `BTreeMap::get_mut`, for keys whose order is a lawful total order: it hands out the
/// value stored under `k`; whatever is written through it is what the map holds under `k`
/// afterwards, and nothing else changes. Where `k` is not a key, the map stays as it was.
#[verifier::external_body]
pub(crate) fn map_get_mut<K: Ord, V>(m: &mut BTreeMap<K, V>, k: K) -> (r: Option<&mut V>)
    requires
        vstd::laws_cmp::obeys_cmp::<K>(),
    ensures
        match r {
            Some(v) => old(m)@.contains_key(k) && *v == old(m)@[k] && final(m)@ == old(m)@.insert(k, *final(v)),
            None => !old(m)@.contains_key(k) && final(m)@ == old(m)@,
        },
{
    m.get_mut(&k)
}

/// `u32` keys obey the order that the btree specifications rely on.
pub proof fn lemma_u32_keys_ordered()
    ensures
        vstd::laws_cmp::obeys_cmp::<u32>(),
        vstd::std_specs::btree::key_obeys_cmp_spec::<u32>(),
{
    broadcast use vstd::std_specs::btree::group_btree_axioms;
    broadcast use vstd::laws_cmp::group_laws_cmp;
}

/// Whether `s` is strictly increasing.
pub open spec fn strictly_increasing(s: Seq<i32>) -> bool {
    forall|i: int, j: int| 0 <= i < j < s.len() ==> s[i] < s[j]
}

/// `i32` keys obey the order that the btree specifications rely on.
pub proof fn lemma_i32_keys_ordered()
    ensures
        vstd::laws_cmp::obeys_cmp::<i32>(),
        vstd::std_specs::btree::key_obeys_cmp_spec::<i32>(),
{
    broadcast use vstd::std_specs::btree::group_btree_axioms;
    broadcast use vstd::laws_cmp::group_laws_cmp;
}

/// A sequence of `i32` that the btree iterators call increasing is strictly increasing.
pub proof fn lemma_increasing_i32(s: Seq<&i32>)
    requires
        vstd::std_specs::btree::increasing_seq(s),
    ensures
        strictly_increasing(s.unref()),
{
    broadcast use vstd::std_specs::btree::group_btree_axioms;
    broadcast use vstd::laws_cmp::group_laws_cmp;
    broadcast use vstd::laws_eq::group_laws_eq;
    reveal(vstd::laws_eq::obeys_eq_spec_properties);
    reveal(vstd::laws_cmp::obeys_partial_cmp_spec_properties);
    reveal(vstd::laws_cmp::obeys_cmp_partial_ord);
    reveal(vstd::laws_cmp::obeys_cmp_ord);
    assert(vstd::laws_cmp::obeys_cmp::<i32>());
    assert(vstd::laws_cmp::obeys_cmp::<&i32>());
    vstd::std_specs::btree::axiom_increasing_seq_meaning(s);
    assert forall|i: int, j: int| 0 <= i < j < s.unref().len() implies s.unref()[i] < s.unref()[j] by {
        assert(vstd::std_specs::cmp::OrdSpec::cmp_spec(&s[i], &s[j]) is Less);
    }
}

/// The keys of a map, in increasing order.
pub fn map_keys<V>(m: &BTreeMap<i32, V>) -> (keys: Vec<i32>)
    ensures
        keys@ == sorted_ints(m@.dom()),
        strictly_increasing(keys@),
        forall|k: i32| m@.contains_key(k) <==> keys@.contains(k),
        keys@.len() == m@.dom().len(),
{
    broadcast use vstd::std_specs::btree::group_btree_axioms;
    let ghost refs = vstd::std_specs::btree::spec_keys_iter(m).remaining();
    let ghost full = refs.unref();
    proof {
        vstd::std_specs::btree::axiom_spec_keys_iter(m);
    }
    let mut keys: Vec<i32> = Vec::new();
    for k in it: m.keys()
        invariant
            it.seq() == refs,
            full == refs.unref(),
            keys@ == full.take(it.index() as int),
    {
        keys.push(*k);
        proof {
            assert(full.take(it.index() + 1) == full.take(it.index() as int).push(*k));
        }
    }
    proof {
        assert(keys@ =~= full);
        lemma_increasing_i32(refs);
        assert forall|k: i32| m@.contains_key(k) <==> keys@.contains(k) by {
            assert(refs.unref().to_set().contains(k) == m@.dom().contains(k));
        }
        assert(keys@.to_set() =~= m@.dom());
        lemma_sorted_ints_is(keys@);
    }
    keys
}


/// The members of a set, in increasing order.
pub fn set_items(m: &BTreeSet<i32>) -> (items: Vec<i32>)
    ensures
        items@ == sorted_ints(m@),
        strictly_increasing(items@),
        forall|k: i32| m@.contains(k) <==> items@.contains(k),
        items@.len() == m@.len(),
{
    broadcast use vstd::std_specs::btree::group_btree_axioms;
    let ghost refs = vstd::std_specs::btree::spec_btree_keys_iter(m).remaining();
    let ghost full = refs.unref();
    proof {
        vstd::std_specs::btree::axiom_spec_btree_keys_iter(m);
        lemma_i32_keys_ordered();
    }
    let mut items: Vec<i32> = Vec::new();
    for k in it: m.iter()
        invariant
            it.seq() == refs,
            full == refs.unref(),
            items@ == full.take(it.index() as int),
    {
        items.push(*k);
        proof {
            assert(full.take(it.index() + 1) == full.take(it.index() as int).push(*k));
        }
    }
    proof {
        assert(items@ =~= full);
        lemma_increasing_i32(refs);
        assert forall|k: i32| m@.contains(k) <==> items@.contains(k) by {
            assert(refs.unref().to_set().contains(k) == m@.contains(k));
        }
        assert(items@.to_set() =~= m@);
        lemma_sorted_ints_is(items@);
    }
    items
}

/// The lexicographic order of pairs.
pub open spec fn pair_lt(a: (i32, i32), b: (i32, i32)) -> bool {
    a.0 < b.0 || (a.0 == b.0 && a.1 < b.1)
}

/// Whether `s` is strictly increasing in the lexicographic order of pairs.
pub open spec fn pairs_strictly_increasing(s: Seq<(i32, i32)>) -> bool {
    forall|i: int, j: int| 0 <= i < j < s.len() ==> pair_lt(s[i], s[j])
}

/// `(i32, i32)` keys obey the order that the btree specifications rely on.
pub proof fn lemma_pair_keys_ordered()
    ensures
        vstd::laws_cmp::obeys_cmp::<(i32, i32)>(),
        vstd::std_specs::btree::key_obeys_cmp_spec::<(i32, i32)>(),
{
    broadcast use vstd::std_specs::btree::group_btree_axioms;
    broadcast use vstd::laws_cmp::group_laws_cmp;
}

/// A sequence of pairs that the btree iterators call increasing is lexicographically increasing.
pub proof fn lemma_increasing_pairs(s: Seq<&(i32, i32)>)
    requires
        vstd::std_specs::btree::increasing_seq(s),
    ensures
        pairs_strictly_increasing(s.unref()),
{
    broadcast use vstd::std_specs::btree::group_btree_axioms;
    broadcast use vstd::laws_cmp::group_laws_cmp;
    broadcast use vstd::laws_eq::group_laws_eq;
    reveal(vstd::laws_eq::obeys_eq_spec_properties);
    reveal(vstd::laws_cmp::obeys_partial_cmp_spec_properties);
    reveal(vstd::laws_cmp::obeys_cmp_partial_ord);
    reveal(vstd::laws_cmp::obeys_cmp_ord);
    assert(vstd::laws_cmp::obeys_cmp::<i32>());
    assert(vstd::laws_cmp::obeys_cmp::<(i32, i32)>());
    assert(vstd::laws_cmp::obeys_cmp::<&(i32, i32)>());
    vstd::std_specs::btree::axiom_increasing_seq_meaning(s);
    assert forall|i: int, j: int| 0 <= i < j < s.unref().len() implies pair_lt(s.unref()[i], s.unref()[j]) by {
        assert(vstd::std_specs::cmp::OrdSpec::cmp_spec(&s[i], &s[j]) is Less);
    }
}

/// The keys of a map keyed by pairs, in lexicographic order.
pub fn map_pair_keys<V>(m: &BTreeMap<(i32, i32), V>) -> (keys: Vec<(i32, i32)>)
    ensures
        keys@ == sorted_pairs(m@.dom()),
        pairs_strictly_increasing(keys@),
        forall|k: (i32, i32)| m@.contains_key(k) <==> keys@.contains(k),
        keys@.len() == m@.dom().len(),
{
    broadcast use vstd::std_specs::btree::group_btree_axioms;
    let ghost refs = vstd::std_specs::btree::spec_keys_iter(m).remaining();
    let ghost full = refs.unref();
    proof {
        vstd::std_specs::btree::axiom_spec_keys_iter(m);
        lemma_pair_keys_ordered();
    }
    let mut keys: Vec<(i32, i32)> = Vec::new();
    for k in it: m.keys()
        invariant
            it.seq() == refs,
            full == refs.unref(),
            keys@ == full.take(it.index() as int),
    {
        keys.push(*k);
        proof {
            assert(full.take(it.index() + 1) == full.take(it.index() as int).push(*k));
        }
    }
    proof {
        assert(keys@ =~= full);
        lemma_increasing_pairs(refs);
        assert forall|k: (i32, i32)| m@.contains_key(k) <==> keys@.contains(k) by {
            assert(refs.unref().to_set().contains(k) == m@.dom().contains(k));
        }
        assert(keys@.to_set() =~= m@.dom());
        lemma_sorted_pairs_is(keys@);
    }
    keys
}

/// Two lexicographically increasing sequences of pairs with the same elements are equal.
pub proof fn lemma_sorted_pairs_unique(s1: Seq<(i32, i32)>, s2: Seq<(i32, i32)>)
    requires
        pairs_strictly_increasing(s1),
        pairs_strictly_increasing(s2),
        s1.to_set() == s2.to_set(),
    ensures
        s1 == s2,
    decreases s1.len(),
{
    if s1.len() == 0 {
        if s2.len() > 0 {
            assert(s2.to_set().contains(s2[0]));
        }
    } else {
        assert(s1.to_set().contains(s1[0]));
        assert(s2.len() > 0);
        assert(s2.to_set().contains(s2[0]));
        let i1 = choose|i: int| 0 <= i < s1.len() && s1[i] == s2[0];
        let i2 = choose|i: int| 0 <= i < s2.len() && s2[i] == s1[0];
        if i1 > 0 {
            assert(pair_lt(s1[0], s1[i1]));
            if i2 > 0 {
                assert(pair_lt(s2[0], s2[i2]));
            }
        }
        assert(s1[0] == s2[0]);
        let t1 = s1.drop_first();
        let t2 = s2.drop_first();
        assert forall|x: (i32, i32)| t1.to_set().contains(x) <==> t2.to_set().contains(x) by {
            if t1.to_set().contains(x) {
                let i = choose|i: int| 0 <= i < t1.len() && t1[i] == x;
                assert(s1[i + 1] == x);
                assert(pair_lt(s1[0], x));
                assert(s2.to_set().contains(x));
                let j = choose|j: int| 0 <= j < s2.len() && s2[j] == x;
                assert(j > 0);
                assert(t2[j - 1] == x);
            }
            if t2.to_set().contains(x) {
                let i = choose|i: int| 0 <= i < t2.len() && t2[i] == x;
                assert(s2[i + 1] == x);
                assert(pair_lt(s2[0], x));
                assert(s1.to_set().contains(x));
                let j = choose|j: int| 0 <= j < s1.len() && s1[j] == x;
                assert(j > 0);
                assert(t1[j - 1] == x);
            }
        }
        assert(t1.to_set() =~= t2.to_set());
        lemma_sorted_pairs_unique(t1, t2);
        assert(s1 =~= s2) by {
            assert(s1 == seq![s1[0]] + t1);
            assert(s2 == seq![s2[0]] + t2);
        }
    }
}

/// Two strictly increasing sequences of integers with the same elements are equal.
pub proof fn lemma_sorted_unique(s1: Seq<i32>, s2: Seq<i32>)
    requires
        strictly_increasing(s1),
        strictly_increasing(s2),
        s1.to_set() == s2.to_set(),
    ensures
        s1 == s2,
    decreases s1.len(),
{
    if s1.len() == 0 {
        if s2.len() > 0 {
            assert(s2.to_set().contains(s2[0]));
        }
    } else {
        assert(s1.to_set().contains(s1[0]));
        assert(s2.len() > 0);
        assert(s2.to_set().contains(s2[0]));
        let i1 = choose|i: int| 0 <= i < s1.len() && s1[i] == s2[0];
        let i2 = choose|i: int| 0 <= i < s2.len() && s2[i] == s1[0];
        assert(s1[0] == s2[0]);
        let t1 = s1.drop_first();
        let t2 = s2.drop_first();
        assert forall|x: i32| t1.to_set().contains(x) <==> t2.to_set().contains(x) by {
            if t1.to_set().contains(x) {
                let i = choose|i: int| 0 <= i < t1.len() && t1[i] == x;
                assert(s1[i + 1] == x);
                assert(s2.to_set().contains(x));
                let j = choose|j: int| 0 <= j < s2.len() && s2[j] == x;
                assert(j > 0);
                assert(t2[j - 1] == x);
            }
            if t2.to_set().contains(x) {
                let i = choose|i: int| 0 <= i < t2.len() && t2[i] == x;
                assert(s2[i + 1] == x);
                assert(s1.to_set().contains(x));
                let j = choose|j: int| 0 <= j < s1.len() && s1[j] == x;
                assert(j > 0);
                assert(t1[j - 1] == x);
            }
        }
        assert(t1.to_set() =~= t2.to_set());
        lemma_sorted_unique(t1, t2);
        assert(s1 =~= s2) by {
            assert(s1 == seq![s1[0]] + t1);
            assert(s2 == seq![s2[0]] + t2);
        }
    }
}

/// The members of a set of pairs in lexicographic order.
pub open spec fn sorted_pairs(d: Set<(i32, i32)>) -> Seq<(i32, i32)> {
    choose|s: Seq<(i32, i32)>| pairs_strictly_increasing(s) && s.to_set() == d
}

/// The members of a set of integers in increasing order.
pub open spec fn sorted_ints(d: Set<i32>) -> Seq<i32> {
    choose|s: Seq<i32>| strictly_increasing(s) && s.to_set() == d
}

/// A lexicographically increasing sequence is the sorted sequence of its elements.
pub proof fn lemma_sorted_pairs_is(s: Seq<(i32, i32)>)
    requires
        pairs_strictly_increasing(s),
    ensures
        sorted_pairs(s.to_set()) == s,
{
    let t = sorted_pairs(s.to_set());
    lemma_sorted_pairs_unique(s, t);
}

/// An increasing sequence is the sorted sequence of its elements.
pub proof fn lemma_sorted_ints_is(s: Seq<i32>)
    requires
        strictly_increasing(s),
    ensures
        sorted_ints(s.to_set()) == s,
{
    let t = sorted_ints(s.to_set());
    lemma_sorted_unique(s, t);
}

} // verus!

verus! {

/// In a strictly increasing sequence that lacks `x`, the members below `x` come first.
proof fn lemma_split_point(t: Seq<i32>, x: i32) -> (j: int)
    requires
        strictly_increasing(t),
        !t.contains(x),
    ensures
        0 <= j <= t.len(),
        forall|k: int| 0 <= k < j ==> t[k] < x,
        forall|k: int| j <= k < t.len() ==> t[k] > x,
    decreases t.len(),
{
    if t.len() == 0 {
        0
    } else {
        let front = t.drop_last();
        assert(!front.contains(x)) by {
            if front.contains(x) {
                let k = choose|k: int| 0 <= k < front.len() && front[k] == x;
                assert(t[k] == x);
            }
        }
        let j0 = lemma_split_point(front, x);
        if t.last() < x {
            assert forall|k: int| 0 <= k < t.len() implies t[k] < x by {
                if k < t.len() - 1 {
                    assert(t[k] < t[t.len() - 1]);
                }
            }
            t.len() as int
        } else {
            assert(t.last() != x) by {
                assert(t[t.len() - 1] == t.last());
            }
            assert forall|k: int| 0 <= k < j0 implies t[k] < x by {
                assert(t[k] == front[k]);
            }
            assert forall|k: int| j0 <= k < t.len() implies t[k] > x by {
                if k < t.len() - 1 {
                    assert(t[k] == front[k]);
                }
            }
            j0
        }
    }
}

/// A finite set of integers has an increasing enumeration.
pub proof fn lemma_sorted_ints_exists(s: Set<i32>)
    requires
        s.finite(),
    ensures
        strictly_increasing(sorted_ints(s)),
        sorted_ints(s).to_set() == s,
    decreases s.len(),
{
    if s.len() == 0 {
        let e = Seq::<i32>::empty();
        assert(e.to_set() =~= s);
        assert(strictly_increasing(e) && e.to_set() == s);
    } else {
        let x = s.choose();
        let rest = s.remove(x);
        lemma_sorted_ints_exists(rest);
        let t = sorted_ints(rest);
        assert(!t.contains(x)) by {
            if t.contains(x) {
                assert(t.to_set().contains(x));
            }
        }
        let j = lemma_split_point(t, x);
        let u = t.insert(j, x);
        t.insert_ensures(j, x);
        assert forall|a: int, b: int| 0 <= a < b < u.len() implies u[a] < u[b] by {
            if b < j {
            } else if b == j {
            } else if a < j {
                assert(u[b] == t[b - 1]);
            } else if a == j {
                assert(u[b] == t[b - 1]);
            } else {
                assert(u[a] == t[a - 1]);
                assert(u[b] == t[b - 1]);
            }
        }
        assert forall|y: i32| u.to_set().contains(y) <==> s.contains(y) by {
            if u.to_set().contains(y) {
                let k = choose|k: int| 0 <= k < u.len() && u[k] == y;
                if k < j {
                    assert(t.to_set().contains(t[k]));
                } else if k > j {
                    assert(t.to_set().contains(t[k - 1]));
                }
            }
            if s.contains(y) {
                if y == x {
                    assert(u[j] == x);
                } else {
                    assert(rest.contains(y));
                    assert(t.to_set().contains(y));
                    let k = choose|k: int| 0 <= k < t.len() && t[k] == y;
                    if k < j {
                        assert(u[k] == y);
                    } else {
                        assert(u[k + 1] == y);
                    }
                }
            }
        }
        assert(u.to_set() =~= s);
        assert(strictly_increasing(u) && u.to_set() == s);
    }
}

/// In a lexicographically increasing sequence that lacks `x`, the members below `x` come first.
proof fn lemma_split_point_pairs(t: Seq<(i32, i32)>, x: (i32, i32)) -> (j: int)
    requires
        pairs_strictly_increasing(t),
        !t.contains(x),
    ensures
        0 <= j <= t.len(),
        forall|k: int| 0 <= k < j ==> pair_lt(t[k], x),
        forall|k: int| j <= k < t.len() ==> pair_lt(x, t[k]),
    decreases t.len(),
{
    if t.len() == 0 {
        0
    } else {
        let front = t.drop_last();
        assert(!front.contains(x)) by {
            if front.contains(x) {
                let k = choose|k: int| 0 <= k < front.len() && front[k] == x;
                assert(t[k] == x);
            }
        }
        let j0 = lemma_split_point_pairs(front, x);
        if pair_lt(t.last(), x) {
            assert forall|k: int| 0 <= k < t.len() implies pair_lt(t[k], x) by {
                if k < t.len() - 1 {
                    assert(pair_lt(t[k], t[t.len() - 1]));
                }
            }
            t.len() as int
        } else {
            assert(t.last() != x) by {
                assert(t[t.len() - 1] == t.last());
            }
            assert forall|k: int| 0 <= k < j0 implies pair_lt(t[k], x) by {
                assert(t[k] == front[k]);
            }
            assert forall|k: int| j0 <= k < t.len() implies pair_lt(x, t[k]) by {
                if k < t.len() - 1 {
                    assert(t[k] == front[k]);
                }
            }
            j0
        }
    }
}

/// A finite set of pairs has a lexicographically increasing enumeration.
pub proof fn lemma_sorted_pairs_exists(s: Set<(i32, i32)>)
    requires
        s.finite(),
    ensures
        pairs_strictly_increasing(sorted_pairs(s)),
        sorted_pairs(s).to_set() == s,
    decreases s.len(),
{
    if s.len() == 0 {
        let e = Seq::<(i32, i32)>::empty();
        assert(e.to_set() =~= s);
        assert(pairs_strictly_increasing(e) && e.to_set() == s);
    } else {
        let x = s.choose();
        let rest = s.remove(x);
        lemma_sorted_pairs_exists(rest);
        let t = sorted_pairs(rest);
        assert(!t.contains(x)) by {
            if t.contains(x) {
                assert(t.to_set().contains(x));
            }
        }
        let j = lemma_split_point_pairs(t, x);
        let u = t.insert(j, x);
        t.insert_ensures(j, x);
        assert forall|a: int, b: int| 0 <= a < b < u.len() implies pair_lt(u[a], u[b]) by {
            if b < j {
            } else if b == j {
            } else if a < j {
                assert(u[b] == t[b - 1]);
            } else if a == j {
                assert(u[b] == t[b - 1]);
            } else {
                assert(u[a] == t[a - 1]);
                assert(u[b] == t[b - 1]);
            }
        }
        assert forall|y: (i32, i32)| u.to_set().contains(y) <==> s.contains(y) by {
            if u.to_set().contains(y) {
                let k = choose|k: int| 0 <= k < u.len() && u[k] == y;
                if k < j {
                    assert(t.to_set().contains(t[k]));
                } else if k > j {
                    assert(t.to_set().contains(t[k - 1]));
                }
            }
            if s.contains(y) {
                if y == x {
                    assert(u[j] == x);
                } else {
                    assert(rest.contains(y));
                    assert(t.to_set().contains(y));
                    let k = choose|k: int| 0 <= k < t.len() && t[k] == y;
                    if k < j {
                        assert(u[k] == y);
                    } else {
                        assert(u[k + 1] == y);
                    }
                }
            }
        }
        assert(u.to_set() =~= s);
        assert(pairs_strictly_increasing(u) && u.to_set() == s);
    }
}

} // verus!
