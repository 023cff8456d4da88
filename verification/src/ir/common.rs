//! Names that refer to tables, columns and tags either by a string or by a numeric id, and
//! lists of entries keyed by them.
use vstd::prelude::*;

use crate::assoc::{lemma_name_lt_irreflexive, lemma_name_lt_total, lemma_name_lt_transitive, name_less, name_lt};

verus! {

/// A reference to a table, a column or a tag: by its name or by its id.
#[derive(Debug, PartialEq, Eq)]
pub enum NameOrId {
    Str(String),
    Id(i32),
}

/// What a `NameOrId` refers to, as a mathematical value.
pub enum NameOrIdView {
    Str(Seq<char>),
    Id(i32),
}

impl View for NameOrId {
    type V = NameOrIdView;

    open spec fn view(&self) -> NameOrIdView {
        match self {
            NameOrId::Str(s) => NameOrIdView::Str(s@),
            NameOrId::Id(i) => NameOrIdView::Id(*i),
        }
    }
}

impl NameOrId {
    /// Whether the two refer to the same name or the same id.
    pub fn same_as(&self, other: &NameOrId) -> (r: bool)
        ensures
            r == (self@ == other@),
    {
        match (self, other) {
            (NameOrId::Str(a), NameOrId::Str(b)) => *a == *b,
            (NameOrId::Id(a), NameOrId::Id(b)) => *a == *b,
            _ => false,
        }
    }

    /// A copy of the reference.
    pub fn copy(&self) -> (c: NameOrId)
        ensures
            c@ == self@,
    {
        match self {
            NameOrId::Str(s) => NameOrId::Str(s.clone()),
            NameOrId::Id(i) => NameOrId::Id(*i),
        }
    }
}

/// The views of a list of references.
pub open spec fn refs_view(s: Seq<NameOrId>) -> Seq<NameOrIdView> {
    s.map_values(|x: NameOrId| x@)
}

/// Whether reference `a` comes before reference `b`: names come before ids, names in the
/// order of strings and ids in increasing order.
pub open spec fn ref_lt(a: NameOrIdView, b: NameOrIdView) -> bool {
    match (a, b) {
        (NameOrIdView::Str(x), NameOrIdView::Str(y)) => name_lt(x, y),
        (NameOrIdView::Id(x), NameOrIdView::Id(y)) => x < y,
        (NameOrIdView::Str(_), NameOrIdView::Id(_)) => true,
        (NameOrIdView::Id(_), NameOrIdView::Str(_)) => false,
    }
}

/// No reference comes before itself.
pub proof fn lemma_ref_lt_irreflexive(a: NameOrIdView)
    ensures
        !ref_lt(a, a),
{
    if let NameOrIdView::Str(x) = a {
        lemma_name_lt_irreflexive(x);
    }
}

/// The order of references is transitive.
pub proof fn lemma_ref_lt_transitive(a: NameOrIdView, b: NameOrIdView, c: NameOrIdView)
    requires
        ref_lt(a, b),
        ref_lt(b, c),
    ensures
        ref_lt(a, c),
{
    if let (NameOrIdView::Str(x), NameOrIdView::Str(y), NameOrIdView::Str(z)) = (a, b, c) {
        lemma_name_lt_transitive(x, y, z);
    }
}

/// Of two different references, one comes before the other.
pub proof fn lemma_ref_lt_total(a: NameOrIdView, b: NameOrIdView)
    requires
        a != b,
    ensures
        ref_lt(a, b) || ref_lt(b, a),
{
    if let (NameOrIdView::Str(x), NameOrIdView::Str(y)) = (a, b) {
        lemma_name_lt_total(x, y);
    }
}

/// The references of `s` come in strictly increasing order, so none occurs twice.
pub open spec fn refs_ascending(s: Seq<NameOrIdView>) -> bool {
    forall|i: int, j: int| 0 <= i < j < s.len() ==> ref_lt(#[trigger] s[i], #[trigger] s[j])
}

/// Whether reference `a` comes before reference `b`.
pub fn ref_less(a: &NameOrId, b: &NameOrId) -> (r: bool)
    ensures
        r == ref_lt(a@, b@),
{
    match (a, b) {
        (NameOrId::Str(x), NameOrId::Str(y)) => name_less(x, y),
        (NameOrId::Id(x), NameOrId::Id(y)) => *x < *y,
        (NameOrId::Str(_), NameOrId::Id(_)) => true,
        (NameOrId::Id(_), NameOrId::Str(_)) => false,
    }
}

/// Adds `x` to the references of `v`, which are kept in increasing order, unless it is
/// there already.
pub fn insert_ref_sorted(v: &mut Vec<NameOrId>, x: NameOrId)
    requires
        refs_ascending(refs_view(old(v)@)),
    ensures
        refs_view(final(v)@).to_set() == refs_view(old(v)@).to_set().insert(x@),
        refs_ascending(refs_view(final(v)@)),
{
    let ghost s = refs_view(v@);
    let mut j: usize = 0;
    while j < v.len() && ref_less(&v[j], &x)
        invariant
            s == refs_view(v@),
            j <= v@.len(),
            forall|k: int| 0 <= k < j ==> ref_lt(#[trigger] s[k], x@),
        decreases v@.len() - j,
    {
        j = j + 1;
    }
    if j < v.len() && v[j].same_as(&x) {
        proof {
            assert(s[j as int] == x@);
            assert(s.to_set().insert(x@) =~= s.to_set());
        }
        return;
    }
    proof {
        if j < s.len() {
            lemma_ref_lt_total(s[j as int], x@);
        }
    }
    v.insert(j, x);
    proof {
        let t = refs_view(v@);
        assert(t =~= s.insert(j as int, x@));
        assert forall|a: int, b: int| 0 <= a < b < t.len() implies ref_lt(#[trigger] t[a], #[trigger] t[b]) by {
            if b < j {
                assert(t[a] == s[a] && t[b] == s[b]);
            } else if b == j {
                assert(t[a] == s[a]);
            } else if a < j {
                assert(t[a] == s[a] && t[b] == s[b - 1]);
            } else if a == j {
                assert(t[b] == s[b - 1]);
                if b - 1 > j {
                    lemma_ref_lt_transitive(x@, s[j as int], s[b - 1]);
                }
            } else {
                assert(t[a] == s[a - 1] && t[b] == s[b - 1]);
            }
        }
        assert forall|y: NameOrIdView| t.to_set().contains(y) implies s.to_set().insert(x@).contains(y) by {
            let k = choose|k: int| 0 <= k < t.len() && t[k] == y;
            if k < j {
                assert(s[k] == y);
                assert(s.to_set().contains(s[k]));
            } else if k > j {
                assert(s[k - 1] == y);
                assert(s.to_set().contains(s[k - 1]));
            }
        }
        assert forall|y: NameOrIdView| s.to_set().insert(x@).contains(y) implies t.to_set().contains(y) by {
            if y == x@ {
                assert(t[j as int] == y);
            } else {
                let m = choose|m: int| 0 <= m < s.len() && s[m] == y;
                if m < j {
                    assert(t[m] == y);
                } else {
                    assert(t[m + 1] == y);
                }
            }
        }
        assert(t.to_set() =~= s.to_set().insert(x@));
    }
}

/// Any increasing list of references has one with a given reference added: the references
/// of `s` and `x`, in increasing order.
pub proof fn lemma_ref_insert_exists(s: Seq<NameOrIdView>, x: NameOrIdView) -> (t: Seq<NameOrIdView>)
    requires
        refs_ascending(s),
    ensures
        refs_ascending(t),
        t.to_set() == s.to_set().insert(x),
    decreases s.len(),
{
    if s.len() == 0 {
        let t = seq![x];
        assert(t.to_set() =~= s.to_set().insert(x)) by {
            assert(t[0] == x);
        }
        t
    } else if s[0] == x {
        assert(s.to_set() =~= s.to_set().insert(x)) by {
            assert(s.to_set().contains(s[0]));
        }
        s
    } else if ref_lt(x, s[0]) {
        let t = seq![x] + s;
        assert forall|a: int, b: int| 0 <= a < b < t.len() implies ref_lt(#[trigger] t[a], #[trigger] t[b]) by {
            if a == 0 {
                if b > 1 {
                    assert(t[b] == s[b - 1]);
                    lemma_ref_lt_transitive(x, s[0], s[b - 1]);
                }
            } else {
                assert(t[a] == s[a - 1] && t[b] == s[b - 1]);
            }
        }
        assert forall|y: NameOrIdView| t.to_set().contains(y) <==> s.to_set().insert(x).contains(y) by {
            if t.to_set().contains(y) && y != x {
                let k = choose|k: int| 0 <= k < t.len() && t[k] == y;
                assert(s[k - 1] == y);
                assert(s.to_set().contains(s[k - 1]));
            }
            if s.to_set().contains(y) {
                let k = choose|k: int| 0 <= k < s.len() && s[k] == y;
                assert(t[k + 1] == y);
            }
            if y == x {
                assert(t[0] == x);
            }
        }
        assert(t.to_set() =~= s.to_set().insert(x));
        t
    } else {
        lemma_ref_lt_total(x, s[0]);
        let rest = s.drop_first();
        assert(refs_ascending(rest)) by {
            assert forall|a: int, b: int| 0 <= a < b < rest.len() implies ref_lt(#[trigger] rest[a], #[trigger] rest[b]) by {
                assert(rest[a] == s[a + 1] && rest[b] == s[b + 1]);
            }
        }
        let r = lemma_ref_insert_exists(rest, x);
        let t = seq![s[0]] + r;
        assert forall|a: int, b: int| 0 <= a < b < t.len() implies ref_lt(#[trigger] t[a], #[trigger] t[b]) by {
            if a == 0 {
                assert(t[b] == r[b - 1]);
                assert(r.to_set().contains(r[b - 1]));
                if r[b - 1] != x {
                    let k = choose|k: int| 0 <= k < rest.len() && rest[k] == r[b - 1];
                    assert(rest[k] == s[k + 1]);
                }
            } else {
                assert(t[a] == r[a - 1] && t[b] == r[b - 1]);
            }
        }
        assert forall|y: NameOrIdView| t.to_set().contains(y) <==> s.to_set().insert(x).contains(y) by {
            if t.to_set().contains(y) {
                let k = choose|k: int| 0 <= k < t.len() && t[k] == y;
                if k == 0 {
                    assert(s.to_set().contains(s[0]));
                } else {
                    assert(r[k - 1] == y);
                    assert(r.to_set().contains(y));
                    if y != x {
                        let m = choose|m: int| 0 <= m < rest.len() && rest[m] == y;
                        assert(s[m + 1] == y);
                        assert(s.to_set().contains(s[m + 1]));
                    }
                }
            }
            if s.to_set().insert(x).contains(y) {
                if y == s[0] {
                    assert(t[0] == y);
                } else {
                    if y != x {
                        let m = choose|m: int| 0 <= m < s.len() && s[m] == y;
                        assert(m != 0);
                        assert(rest[m - 1] == y);
                        assert(rest.to_set().contains(rest[m - 1]));
                    }
                    assert(r.to_set().contains(y));
                    let k = choose|k: int| 0 <= k < r.len() && r[k] == y;
                    assert(t[k + 1] == y);
                }
            }
        }
        assert(t.to_set() =~= s.to_set().insert(x));
        t
    }
}

/// Two lists of references in increasing order with the same members are the same list.
pub proof fn lemma_refs_ascending_unique(s1: Seq<NameOrIdView>, s2: Seq<NameOrIdView>)
    requires
        refs_ascending(s1),
        refs_ascending(s2),
        s1.to_set() == s2.to_set(),
    ensures
        s1 == s2,
    decreases s1.len(),
{
    if s1.len() == 0 {
        if s2.len() > 0 {
            assert(s2.to_set().contains(s2[0]));
        }
    } else {
        assert(s1.to_set().contains(s1[0]));
        assert(s2.to_set().contains(s2[0]));
        let i1 = choose|i: int| 0 <= i < s1.len() && s1[i] == s2[0];
        let i2 = choose|i: int| 0 <= i < s2.len() && s2[i] == s1[0];
        if s1[0] != s2[0] {
            assert(ref_lt(s1[0], s1[i1]));
            assert(ref_lt(s2[0], s2[i2]));
            lemma_ref_lt_transitive(s1[0], s2[0], s1[0]);
            lemma_ref_lt_irreflexive(s1[0]);
        }
        let t1 = s1.drop_first();
        let t2 = s2.drop_first();
        assert forall|x: NameOrIdView| t1.to_set().contains(x) implies t2.to_set().contains(x) by {
            let i = choose|i: int| 0 <= i < t1.len() && t1[i] == x;
            assert(s1[i + 1] == x);
            assert(s2.to_set().contains(x));
            let j = choose|j: int| 0 <= j < s2.len() && s2[j] == x;
            if j == 0 {
                assert(ref_lt(s1[0], s1[i + 1]));
                lemma_ref_lt_irreflexive(x);
            }
            assert(t2[j - 1] == x);
        }
        assert forall|x: NameOrIdView| t2.to_set().contains(x) implies t1.to_set().contains(x) by {
            let i = choose|i: int| 0 <= i < t2.len() && t2[i] == x;
            assert(s2[i + 1] == x);
            assert(s1.to_set().contains(x));
            let j = choose|j: int| 0 <= j < s1.len() && s1[j] == x;
            if j == 0 {
                assert(ref_lt(s2[0], s2[i + 1]));
                lemma_ref_lt_irreflexive(x);
            }
            assert(t1[j - 1] == x);
        }
        assert(t1.to_set() =~= t2.to_set());
        assert forall|a: int, b: int| 0 <= a < b < t1.len() implies ref_lt(#[trigger] t1[a], #[trigger] t1[b]) by {
            assert(t1[a] == s1[a + 1] && t1[b] == s1[b + 1]);
        }
        assert forall|a: int, b: int| 0 <= a < b < t2.len() implies ref_lt(#[trigger] t2[a], #[trigger] t2[b]) by {
            assert(t2[a] == s2[a + 1] && t2[b] == s2[b + 1]);
        }
        lemma_refs_ascending_unique(t1, t2);
        assert(s1 =~= seq![s1[0]] + t1);
        assert(s2 =~= seq![s2[0]] + t2);
    }
}

/// The views of a list of entries keyed by references.
pub open spec fn entries_view<V>(s: Seq<(NameOrId, V)>) -> Seq<(NameOrIdView, V)> {
    s.map_values(|e: (NameOrId, V)| (e.0@, e.1))
}

/// Whether some entry of `s` has the key `k`.
pub open spec fn has_key<V>(s: Seq<(NameOrIdView, V)>, k: NameOrIdView) -> bool {
    exists|i: int| 0 <= i < s.len() && (#[trigger] s[i]).0 == k
}

/// No two entries of `s` have the same key.
pub open spec fn keys_distinct<V>(s: Seq<(NameOrIdView, V)>) -> bool {
    forall|i: int, j: int| 0 <= i < j < s.len() ==> (#[trigger] s[i]).0 != (#[trigger] s[j]).0
}

/// The value stored under `k`, if any.
pub open spec fn lookup_key<V>(s: Seq<(NameOrIdView, V)>, k: NameOrIdView) -> Option<V> {
    if has_key(s, k) {
        Some(s[choose|i: int| 0 <= i < s.len() && (#[trigger] s[i]).0 == k].1)
    } else {
        None
    }
}

/// With distinct keys, the entry at a position with key `k` is the one `lookup_key` finds.
pub proof fn lemma_lookup_at<V>(s: Seq<(NameOrIdView, V)>, k: NameOrIdView, i: int)
    requires
        keys_distinct(s),
        0 <= i < s.len(),
        s[i].0 == k,
    ensures
        lookup_key(s, k) == Some(s[i].1),
{
    assert(has_key(s, k));
    let c = choose|c: int| 0 <= c < s.len() && (#[trigger] s[c]).0 == k;
    if c != i {
        if c < i {
            assert(s[c].0 != s[i].0);
        } else {
            assert(s[i].0 != s[c].0);
        }
    }
}

/// The position of the entry with key `k`.
pub fn find_key<V>(v: &Vec<(NameOrId, V)>, k: &NameOrId) -> (r: Option<usize>)
    requires
        keys_distinct(entries_view(v@)),
    ensures
        match r {
            Some(i) => i < v@.len() && v@[i as int].0@ == k@ && lookup_key(entries_view(v@), k@) == Some(v@[i as int].1),
            None => !has_key(entries_view(v@), k@) && lookup_key(entries_view(v@), k@) is None,
        },
{
    let mut i: usize = 0;
    while i < v.len()
        invariant
            i <= v@.len(),
            keys_distinct(entries_view(v@)),
            forall|j: int| 0 <= j < i ==> (#[trigger] v@[j]).0@ != k@,
        decreases v@.len() - i,
    {
        if v[i].0.same_as(k) {
            proof {
                assert(entries_view(v@)[i as int] == (v@[i as int].0@, v@[i as int].1));
                lemma_lookup_at(entries_view(v@), k@, i as int);
            }
            return Some(i);
        }
        i = i + 1;
    }
    proof {
        if has_key(entries_view(v@), k@) {
            let c = choose|c: int| 0 <= c < entries_view(v@).len() && (#[trigger] entries_view(v@)[c]).0 == k@;
            assert(entries_view(v@)[c].0 == v@[c].0@);
        }
    }
    None
}

} // verus!
