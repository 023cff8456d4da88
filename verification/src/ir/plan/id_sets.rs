//! Sets and maps keyed by node ids of a plan: their members in increasing order, and removal.
use std::collections::{BTreeMap, BTreeSet};
use vstd::prelude::*;
use vstd::std_specs::iter::IteratorSpec;

verus! {

/// `u32` keys obey the order that the btree specifications rely on.
pub proof fn lemma_u32_ordered()
    ensures
        vstd::laws_cmp::obeys_cmp::<u32>(),
        vstd::std_specs::btree::key_obeys_cmp_spec::<u32>(),
{
    broadcast use vstd::std_specs::btree::group_btree_axioms;
    broadcast use vstd::laws_cmp::group_laws_cmp;
}

/// Whether `s` is strictly increasing.
pub open spec fn ids_increasing(s: Seq<u32>) -> bool {
    forall|i: int, j: int| 0 <= i < j < s.len() ==> s[i] < s[j]
}

/// A sequence of ids that the btree iterators call increasing is strictly increasing.
proof fn lemma_increasing_u32(s: Seq<&u32>)
    requires
        vstd::std_specs::btree::increasing_seq(s),
    ensures
        ids_increasing(s.unref()),
{
    broadcast use vstd::std_specs::btree::group_btree_axioms;
    broadcast use vstd::laws_cmp::group_laws_cmp;
    broadcast use vstd::laws_eq::group_laws_eq;
    reveal(vstd::laws_eq::obeys_eq_spec_properties);
    reveal(vstd::laws_cmp::obeys_partial_cmp_spec_properties);
    reveal(vstd::laws_cmp::obeys_cmp_partial_ord);
    reveal(vstd::laws_cmp::obeys_cmp_ord);
    assert(vstd::laws_cmp::obeys_cmp::<u32>());
    assert(vstd::laws_cmp::obeys_cmp::<&u32>());
    vstd::std_specs::btree::axiom_increasing_seq_meaning(s);
    assert forall|i: int, j: int| 0 <= i < j < s.unref().len() implies s.unref()[i] < s.unref()[j] by {
        assert(vstd::std_specs::cmp::OrdSpec::cmp_spec(&s[i], &s[j]) is Less);
    }
}

/// The members of a set of ids, in increasing order.
pub fn id_set_items(m: &BTreeSet<u32>) -> (items: Vec<u32>)
    ensures
        ids_increasing(items@),
        items@.to_set() == m@,
        items@.len() == m@.len(),
{
    broadcast use vstd::std_specs::btree::group_btree_axioms;
    let ghost refs = vstd::std_specs::btree::spec_btree_keys_iter(m).remaining();
    let ghost full = refs.unref();
    proof {
        vstd::std_specs::btree::axiom_spec_btree_keys_iter(m);
        lemma_u32_ordered();
    }
    let mut items: Vec<u32> = Vec::new();
    for k in it: m.iter()
        invariant
            it.seq() == refs,
            full == refs.unref(),
            items@ == full.take(it.index() as int),
    {
        items.push(*k);
        proof {
            assert(full.take(it.index() + 1) == full.take(it.index() as int).push(*k));
        }
    }
    proof {
        assert(items@ =~= full);
        lemma_increasing_u32(refs);
        assert(items@.to_set() =~= m@) by {
            assert forall|k: u32| m@.contains(k) <==> items@.contains(k) by {
                assert(refs.unref().to_set().contains(k) == m@.contains(k));
            }
        }
        items@.unique_seq_to_set();
    }
    items
}

/// The keys of a map keyed by ids, in increasing order.
pub fn id_map_keys<V>(m: &BTreeMap<u32, V>) -> (keys: Vec<u32>)
    ensures
        ids_increasing(keys@),
        keys@.to_set() == m@.dom(),
        keys@.len() == m@.dom().len(),
{
    broadcast use vstd::std_specs::btree::group_btree_axioms;
    let ghost refs = vstd::std_specs::btree::spec_keys_iter(m).remaining();
    let ghost full = refs.unref();
    proof {
        vstd::std_specs::btree::axiom_spec_keys_iter(m);
        lemma_u32_ordered();
    }
    let mut keys: Vec<u32> = Vec::new();
    for k in it: m.keys()
        invariant
            it.seq() == refs,
            full == refs.unref(),
            keys@ == full.take(it.index() as int),
    {
        keys.push(*k);
        proof {
            assert(full.take(it.index() + 1) == full.take(it.index() as int).push(*k));
        }
    }
    proof {
        assert(keys@ =~= full);
        lemma_increasing_u32(refs);
        assert(keys@.to_set() =~= m@.dom()) by {
            assert forall|k: u32| m@.contains_key(k) <==> keys@.contains(k) by {
                assert(refs.unref().to_set().contains(k) == m@.dom().contains(k));
            }
        }
        keys@.unique_seq_to_set();
    }
    keys
}

/// The members of a set of ids in increasing order.
pub open spec fn sorted_ids(d: Set<u32>) -> Seq<u32> {
    choose|t: Seq<u32>| ids_increasing(t) && t.to_set() == d
}

/// Two strictly increasing sequences of ids with the same members are equal.
pub proof fn lemma_ids_sorted_unique(s1: Seq<u32>, s2: Seq<u32>)
    requires
        ids_increasing(s1),
        ids_increasing(s2),
        s1.to_set() == s2.to_set(),
    ensures
        s1 == s2,
    decreases s1.len(),
{
    if s1.len() == 0 {
        if s2.len() > 0 {
            assert(s2.to_set().contains(s2[0]));
        }
    } else {
        assert(s1.to_set().contains(s1[0]));
        assert(s2.len() > 0);
        assert(s2.to_set().contains(s2[0]));
        let i1 = choose|i: int| 0 <= i < s1.len() && s1[i] == s2[0];
        let i2 = choose|i: int| 0 <= i < s2.len() && s2[i] == s1[0];
        assert(s1[0] == s2[0]);
        let t1 = s1.drop_first();
        let t2 = s2.drop_first();
        assert forall|x: u32| t1.to_set().contains(x) <==> t2.to_set().contains(x) by {
            if t1.to_set().contains(x) {
                let i = choose|i: int| 0 <= i < t1.len() && t1[i] == x;
                assert(s1[i + 1] == x);
                assert(s2.to_set().contains(x));
                let j = choose|j: int| 0 <= j < s2.len() && s2[j] == x;
                assert(j > 0);
                assert(t2[j - 1] == x);
            }
            if t2.to_set().contains(x) {
                let i = choose|i: int| 0 <= i < t2.len() && t2[i] == x;
                assert(s2[i + 1] == x);
                assert(s1.to_set().contains(x));
                let j = choose|j: int| 0 <= j < s1.len() && s1[j] == x;
                assert(j > 0);
                assert(t1[j - 1] == x);
            }
        }
        assert(t1.to_set() =~= t2.to_set());
        lemma_ids_sorted_unique(t1, t2);
        assert(s1 =~= s2) by {
            assert(s1 == seq![s1[0]] + t1);
            assert(s2 == seq![s2[0]] + t2);
        }
    }
}

} // verus!
