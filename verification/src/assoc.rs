//! Lists of (name, value) entries with distinct names, used as maps that keep the order in
//! which names were first registered, and the order of names as strings.
use vstd::prelude::*;

verus! {

/// Whether some entry of `s` carries the name `k`.
pub open spec fn has_name<V>(s: Seq<(String, V)>, k: Seq<char>) -> bool {
    exists|i: int| 0 <= i < s.len() && (#[trigger] s[i]).0@ == k
}

/// The position of the entry named `k`.
pub open spec fn name_index<V>(s: Seq<(String, V)>, k: Seq<char>) -> int {
    choose|i: int| 0 <= i < s.len() && (#[trigger] s[i]).0@ == k
}

/// No two entries of `s` carry the same name.
pub open spec fn names_distinct<V>(s: Seq<(String, V)>) -> bool {
    forall|i: int, j: int| 0 <= i < j < s.len() ==> (#[trigger] s[i]).0@ != (#[trigger] s[j]).0@
}

/// The value stored under name `k`, if any.
pub open spec fn lookup_name<V>(s: Seq<(String, V)>, k: Seq<char>) -> Option<V> {
    if has_name(s, k) {
        Some(s[name_index(s, k)].1)
    } else {
        None
    }
}

/// `s` after storing `v` under the name of `k`: the entry of that name is replaced in place,
/// or a new entry goes at the end.
pub open spec fn insert_name<V>(s: Seq<(String, V)>, k: String, v: V) -> Seq<(String, V)> {
    if has_name(s, k@) {
        s.update(name_index(s, k@), (k, v))
    } else {
        s.push((k, v))
    }
}

/// The position of the entry named `k`.
pub fn find_name<V>(m: &Vec<(String, V)>, k: &String) -> (r: Option<usize>)
    requires
        names_distinct(m@),
    ensures
        match r {
            Some(i) => i < m@.len() && m@[i as int].0@ == k@ && has_name(m@, k@) && i == name_index(m@, k@),
            None => !has_name(m@, k@),
        },
{
    let mut i: usize = 0;
    while i < m.len()
        invariant
            i <= m@.len(),
            names_distinct(m@),
            forall|j: int| 0 <= j < i ==> (#[trigger] m@[j]).0@ != k@,
        decreases m@.len() - i,
    {
        if m[i].0 == *k {
            proof {
                let c = name_index(m@, k@);
                assert(m@[c].0@ == k@);
                if c != i {
                    if c < i {
                        assert(m@[c].0@ != m@[i as int].0@);
                    } else {
                        assert(m@[i as int].0@ != m@[c].0@);
                    }
                }
            }
            return Some(i);
        }
        i = i + 1;
    }
    None
}

/// Stores `v` under the name of `k`.
pub fn insert_name_exec<V>(m: &mut Vec<(String, V)>, k: String, v: V)
    requires
        names_distinct(old(m)@),
    ensures
        final(m)@ == insert_name(old(m)@, k, v),
        names_distinct(final(m)@),
{
    match find_name(m, &k) {
        Some(i) => {
            m.set(i, (k, v));
        },
        None => {
            m.push((k, v));
        },
    }
}

/// Whether name `a` comes before name `b`: at the first character where they differ, `a`
/// has the smaller one, or `a` is a proper prefix of `b`. This is the order of Rust strings.
pub open spec fn name_lt(a: Seq<char>, b: Seq<char>) -> bool
    decreases a.len(),
{
    if a.len() == 0 {
        b.len() > 0
    } else if b.len() == 0 {
        false
    } else if a[0] != b[0] {
        (a[0] as int) < (b[0] as int)
    } else {
        name_lt(a.drop_first(), b.drop_first())
    }
}

/// No name comes before itself.
pub proof fn lemma_name_lt_irreflexive(a: Seq<char>)
    ensures
        !name_lt(a, a),
    decreases a.len(),
{
    if a.len() > 0 {
        lemma_name_lt_irreflexive(a.drop_first());
    }
}

/// The order of names is transitive.
pub proof fn lemma_name_lt_transitive(a: Seq<char>, b: Seq<char>, c: Seq<char>)
    requires
        name_lt(a, b),
        name_lt(b, c),
    ensures
        name_lt(a, c),
    decreases a.len(),
{
    if a.len() > 0 && b.len() > 0 && c.len() > 0 && a[0] == b[0] && b[0] == c[0] {
        lemma_name_lt_transitive(a.drop_first(), b.drop_first(), c.drop_first());
    }
}

/// Of two different names, one comes before the other.
pub proof fn lemma_name_lt_total(a: Seq<char>, b: Seq<char>)
    requires
        a != b,
    ensures
        name_lt(a, b) || name_lt(b, a),
    decreases a.len(),
{
    if a.len() == 0 {
        if b.len() == 0 {
            assert(a =~= b);
        }
    } else if b.len() > 0 && a[0] == b[0] {
        if a.drop_first() == b.drop_first() {
            assert(a =~= seq![a[0]] + a.drop_first());
            assert(b =~= seq![b[0]] + b.drop_first());
        }
        lemma_name_lt_total(a.drop_first(), b.drop_first());
    } else if b.len() > 0 {
        assert((a[0] as int) != (b[0] as int));
    }
}

/// Whether name `a` comes before name `b`.
pub fn name_less(a: &String, b: &String) -> (r: bool)
    ensures
        r == name_lt(a@, b@),
{
    let sa = a.as_str();
    let sb = b.as_str();
    let la = sa.unicode_len();
    let lb = sb.unicode_len();
    let mut i: usize = 0;
    proof {
        assert(a@.skip(0) =~= a@);
        assert(b@.skip(0) =~= b@);
    }
    while i < la && i < lb
        invariant
            la == a@.len(),
            lb == b@.len(),
            sa@ == a@,
            sb@ == b@,
            i <= la,
            i <= lb,
            name_lt(a@, b@) == name_lt(a@.skip(i as int), b@.skip(i as int)),
        decreases la - i,
    {
        let ca = sa.get_char(i);
        let cb = sb.get_char(i);
        proof {
            assert(a@.skip(i as int)[0] == ca);
            assert(b@.skip(i as int)[0] == cb);
        }
        if ca != cb {
            return (ca as u32) < (cb as u32);
        }
        proof {
            assert(a@.skip(i as int).drop_first() =~= a@.skip(i + 1));
            assert(b@.skip(i as int).drop_first() =~= b@.skip(i + 1));
        }
        i = i + 1;
    }
    proof {
        if i == la {
            assert(a@.skip(i as int).len() == 0);
        } else {
            assert(b@.skip(i as int).len() == 0);
        }
    }
    i == la && i < lb
}

} // verus!
