//! Which vertex labels and edge labels a schema has, and how edges connect vertices.
use std::collections::{BTreeMap, BTreeSet};
use vstd::prelude::*;

use crate::assoc::{find_name, has_name, insert_name, insert_name_exec, lemma_name_lt_irreflexive, lemma_name_lt_total, lemma_name_lt_transitive, lookup_name, name_index, name_less, name_lt, names_distinct};
use crate::catalogue::pattern::Direction;
use crate::ir::catalogue::collections::{lemma_i32_keys_ordered, lemma_pair_keys_ordered, map_get_mut};
use crate::ir::plan::meta::{Schema, SchemaView};

verus! {

/// What a pattern meta holds, as mathematical values.
pub struct PatternMetaView {
    pub vertex_map: Seq<(String, i32)>,
    pub edge_map: Seq<(String, i32)>,
    pub vertex_connect_edges: Map<i32, Seq<(i32, Direction)>>,
    pub edge_connect_vertices: Map<i32, Seq<(i32, i32)>>,
    pub vertex_vertex_edges: Map<(i32, i32), Seq<(i32, Direction)>>,
}

#[derive(Debug)]
pub struct PatternMeta {
    vertex_map: Vec<(String, i32)>,
    edge_map: Vec<(String, i32)>,
    vertex_connect_edges: BTreeMap<i32, Vec<(i32, Direction)>>,
    edge_connect_vertices: BTreeMap<i32, Vec<(i32, i32)>>,
    vertex_vertex_edges: BTreeMap<(i32, i32), Vec<(i32, Direction)>>,
}

impl View for PatternMeta {
    type V = PatternMetaView;

    closed spec fn view(&self) -> PatternMetaView {
        PatternMetaView {
            vertex_map: self.vertex_map@,
            edge_map: self.edge_map@,
            vertex_connect_edges: self.vertex_connect_edges@.map_values(|v: Vec<(i32, Direction)>| v@),
            edge_connect_vertices: self.edge_connect_vertices@.map_values(|v: Vec<(i32, i32)>| v@),
            vertex_vertex_edges: self.vertex_vertex_edges@.map_values(|v: Vec<(i32, Direction)>| v@),
        }
    }
}

impl PatternMetaView {
    /// Each label name is registered once, and every edge that a vertex lists among its
    /// connections has its end vertices recorded.
    pub open spec fn wf(self) -> bool {
        &&& names_distinct(self.vertex_map)
        &&& names_distinct(self.edge_map)
        &&& forall|v: i32, k: int| #[trigger] self.vertex_connect_edges.contains_key(v) && 0 <= k < self.vertex_connect_edges[v].len()
            ==> self.edge_connect_vertices.contains_key(#[trigger] self.vertex_connect_edges[v][k].0)
    }
}

/// `m` with `x` appended to the list under `k`.
pub open spec fn map_append<K, T>(m: Map<K, Seq<T>>, k: K, x: T) -> Map<K, Seq<T>> {
    m.insert(k, if m.contains_key(k) { m[k].push(x) } else { seq![x] })
}

/// The meta after recording edge label `id` from vertex label `s` to vertex label `e`.
pub open spec fn add_connection(m: PatternMetaView, id: i32, s: i32, e: i32) -> PatternMetaView {
    PatternMetaView {
        vertex_connect_edges: map_append(map_append(m.vertex_connect_edges, s, (id, Direction::Out)), e, (id, Direction::Incoming)),
        edge_connect_vertices: map_append(m.edge_connect_vertices, id, (s, e)),
        vertex_vertex_edges: map_append(map_append(m.vertex_vertex_edges, (s, e), (id, Direction::Out)), (e, s), (id, Direction::Incoming)),
        ..m
    }
}

/// The meta after registering table `entry` of schema `sch`: a relation becomes an edge
/// label connecting its source and target entities, anything else a vertex label.
pub open spec fn register_table(m: PatternMetaView, sch: SchemaView, entry: (String, i32)) -> PatternMetaView {
    match lookup_name(sch.rel_entity_labels, entry.0@) {
        Some(ends) => {
            let s = lookup_name(sch.table_map, ends.0@)->0;
            let e = lookup_name(sch.table_map, ends.1@)->0;
            add_connection(PatternMetaView { edge_map: insert_name(m.edge_map, entry.0, entry.1), ..m }, entry.1, s, e)
        },
        None => PatternMetaView { vertex_map: insert_name(m.vertex_map, entry.0, entry.1), ..m },
    }
}

/// The meta after registering the tables `entries` of schema `sch`, one after the other.
pub open spec fn register_tables(sch: SchemaView, entries: Seq<(String, i32)>) -> PatternMetaView
    decreases entries.len(),
{
    if entries.len() == 0 {
        PatternMetaView {
            vertex_map: Seq::empty(),
            edge_map: Seq::empty(),
            vertex_connect_edges: Map::empty(),
            edge_connect_vertices: Map::empty(),
            vertex_vertex_edges: Map::empty(),
        }
    } else {
        register_table(register_tables(sch, entries.drop_last()), sch, entries.last())
    }
}

/// Every relation of the schema starts and ends at tables of the schema.
pub open spec fn relations_resolve(sch: SchemaView) -> bool {
    forall|k: int| 0 <= k < sch.rel_entity_labels.len() ==> {
        &&& lookup_name(sch.table_map, (#[trigger] sch.rel_entity_labels[k]).1.0@) is Some
        &&& lookup_name(sch.table_map, sch.rel_entity_labels[k].1.1@) is Some
    }
}

} // verus!

verus! {

/// Appends `x` to the list stored under `k`.
fn append_at<T>(m: &mut BTreeMap<i32, Vec<T>>, k: i32, x: T)
    ensures
        final(m)@.map_values(|v: Vec<T>| v@) == map_append(old(m)@.map_values(|v: Vec<T>| v@), k, x),
{
    broadcast use vstd::std_specs::btree::group_btree_axioms;
    proof {
        lemma_i32_keys_ordered();
    }
    let ghost before = m@.map_values(|v: Vec<T>| v@);
    match map_get_mut(m, k) {
        Some(list) => {
            list.push(x);
        },
        None => {
            let mut list = Vec::new();
            list.push(x);
            m.insert(k, list);
        },
    }
    assert(m@.map_values(|v: Vec<T>| v@) =~= map_append(before, k, x));
}

/// Appends `x` to the list stored under the pair `k`.
fn append_at_pair<T>(m: &mut BTreeMap<(i32, i32), Vec<T>>, k: (i32, i32), x: T)
    ensures
        final(m)@.map_values(|v: Vec<T>| v@) == map_append(old(m)@.map_values(|v: Vec<T>| v@), k, x),
{
    broadcast use vstd::std_specs::btree::group_btree_axioms;
    proof {
        lemma_pair_keys_ordered();
    }
    let ghost before = m@.map_values(|v: Vec<T>| v@);
    match map_get_mut(m, k) {
        Some(list) => {
            list.push(x);
        },
        None => {
            let mut list = Vec::new();
            list.push(x);
            m.insert(k, list);
        },
    }
    assert(m@.map_values(|v: Vec<T>| v@) =~= map_append(before, k, x));
}

impl PatternMeta {
    /// Records edge label `id` from vertex label `s` to vertex label `e`.
    fn add_connection(&mut self, id: i32, s: i32, e: i32)
        ensures
            final(self)@ == add_connection(old(self)@, id, s, e),
    {
        append_at(&mut self.vertex_connect_edges, s, (id, Direction::Out));
        append_at(&mut self.vertex_connect_edges, e, (id, Direction::Incoming));
        append_at(&mut self.edge_connect_vertices, id, (s, e));
        append_at_pair(&mut self.vertex_vertex_edges, (s, e), (id, Direction::Out));
        append_at_pair(&mut self.vertex_vertex_edges, (e, s), (id, Direction::Incoming));
    }

    /// The pattern meta of a schema whose relations all start and end at tables of the schema,
    /// and `None` for a schema with a relation that does not.
    pub fn try_from_schema(src_schema: &Schema) -> (pattern_meta: Option<PatternMeta>)
        requires
            src_schema@.wf(),
        ensures
            match pattern_meta {
                Some(m) => relations_resolve(src_schema@) && m@ == register_tables(src_schema@, src_schema@.table_map)
                    && m@.wf(),
                None => !relations_resolve(src_schema@),
            },
    {
        let labels = src_schema.get_relation_labels();
        let mut k: usize = 0;
        while k < labels.len()
            invariant
                labels@ == src_schema@.rel_entity_labels,
                src_schema@.wf(),
                k <= labels@.len(),
                forall|j: int| 0 <= j < k ==> {
                    &&& lookup_name(src_schema@.table_map, (#[trigger] labels@[j]).1.0@) is Some
                    &&& lookup_name(src_schema@.table_map, labels@[j].1.1@) is Some
                },
            decreases labels@.len() - k,
        {
            let (src, dst) = &labels[k].1;
            if src_schema.get_table_id(src.as_str()).is_none() || src_schema.get_table_id(dst.as_str()).is_none() {
                return None;
            }
            k = k + 1;
        }
        Some(PatternMeta::from_schema(src_schema))
    }

    /// The pattern meta of a schema: its relations become edge labels connecting their source
    /// and target entities, and its other tables vertex labels, in the order the schema lists
    /// its tables.
    pub fn from_schema(src_schema: &Schema) -> (pattern_meta: PatternMeta)
        requires
            src_schema@.wf(),
            relations_resolve(src_schema@),
        ensures
            pattern_meta@ == register_tables(src_schema@, src_schema@.table_map),
            pattern_meta@.wf(),
    {
        let ghost sch = src_schema@;
        let table_map = src_schema.get_table_map();
        let mut pattern_meta = PatternMeta {
            vertex_map: Vec::new(),
            edge_map: Vec::new(),
            vertex_connect_edges: BTreeMap::new(),
            edge_connect_vertices: BTreeMap::new(),
            vertex_vertex_edges: BTreeMap::new(),
        };
        proof {
            assert(pattern_meta@.vertex_connect_edges =~= Map::empty());
            assert(pattern_meta@.edge_connect_vertices =~= Map::empty());
            assert(pattern_meta@.vertex_vertex_edges =~= Map::empty());
            assert(table_map@.take(0) =~= Seq::empty());
        }
        for i in 0..table_map.len()
            invariant
                sch == src_schema@,
                sch.wf(),
                relations_resolve(sch),
                table_map@ == sch.table_map,
                pattern_meta@ == register_tables(sch, table_map@.take(i as int)),
                pattern_meta@.wf(),
        {
            let name = table_map[i].0.clone();
            let id = table_map[i].1;
            let ghost entry = table_map@[i as int];
            proof {
                assert(table_map@.take(i + 1).drop_last() == table_map@.take(i as int));
                assert(table_map@.take(i + 1).last() == entry);
            }
            match src_schema.get_relation_entities(&name) {
                Some(connection) => {
                    let (start_v_name, end_v_name) = connection;
                    let start_v_id = src_schema.get_table_id(start_v_name.as_str());
                    let end_v_id = src_schema.get_table_id(end_v_name.as_str());
                    proof {
                        let k = crate::assoc::name_index(sch.rel_entity_labels, name@);
                        assert(sch.rel_entity_labels[k].1 == connection);
                    }
                    match (start_v_id, end_v_id) {
                        (Some(start_v_id), Some(end_v_id)) => {
                            let ghost before = pattern_meta@;
                            insert_name_exec(&mut pattern_meta.edge_map, name, id);
                            pattern_meta.add_connection(id, start_v_id, end_v_id);
                            proof {
                                let after_names = PatternMetaView { edge_map: insert_name(before.edge_map, entry.0, entry.1), ..before };
                                assert(pattern_meta@ == add_connection(after_names, id, start_v_id, end_v_id));
                                let m = pattern_meta@;
                                assert forall|v: i32, k: int| #[trigger] m.vertex_connect_edges.contains_key(v) && 0 <= k < m.vertex_connect_edges[v].len()
                                    implies m.edge_connect_vertices.contains_key(#[trigger] m.vertex_connect_edges[v][k].0) by {
                                    if v != start_v_id && v != end_v_id {
                                        assert(before.vertex_connect_edges.contains_key(v));
                                        assert(before.vertex_connect_edges[v][k] == m.vertex_connect_edges[v][k]);
                                    } else if k < m.vertex_connect_edges[v].len() - 1 {
                                        let mid = map_append(before.vertex_connect_edges, start_v_id, (id, Direction::Out));
                                        if v == end_v_id && mid.contains_key(v) {
                                            assert(mid[v][k] == m.vertex_connect_edges[v][k]);
                                            if v == start_v_id && before.vertex_connect_edges.contains_key(v) && k < before.vertex_connect_edges[v].len() {
                                                assert(before.vertex_connect_edges[v][k] == mid[v][k]);
                                            }
                                        } else if v == start_v_id && before.vertex_connect_edges.contains_key(v) {
                                            assert(before.vertex_connect_edges[v][k] == m.vertex_connect_edges[v][k]);
                                        }
                                    }
                                }
                            }
                        },
                        _ => {
                            assert(false);
                        },
                    }
                },
                None => {
                    insert_name_exec(&mut pattern_meta.vertex_map, name, id);
                },
            }
        }
        proof {
            assert(table_map@.take(table_map@.len() as int) == table_map@);
        }
        pattern_meta
    }
}

} // verus!

verus! {

/// The vertex label at the far end of a connection in direction `d` of an edge from `ends.0` to `ends.1`.
pub open spec fn far_end(d: Direction, ends: (i32, i32)) -> i32 {
    if d == Direction::Out {
        ends.1
    } else {
        ends.0
    }
}

/// The vertex labels reached through the first `i` connections of `conns`, and through the
/// first `j` recorded end pairs of connection `i`.
pub open spec fn reached(m: PatternMetaView, conns: Seq<(i32, Direction)>, i: int, j: int) -> Set<i32> {
    Set::new(
        |x: i32|
            exists|a: int, b: int|
                #![trigger m.edge_connect_vertices[conns[a].0][b]]
                0 <= a < conns.len() && 0 <= b < m.edge_connect_vertices[conns[a].0].len() && (a < i || (a == i && b < j)) && x == far_end(
                    conns[a].1,
                    m.edge_connect_vertices[conns[a].0][b],
                ),
    )
}

/// The vertex labels that vertex label `src` connects to through any edge label, in either direction.
pub open spec fn connected_vertices(m: PatternMetaView, src: i32) -> Set<i32> {
    if m.vertex_connect_edges.contains_key(src) {
        let conns = m.vertex_connect_edges[src];
        reached(m, conns, conns.len() as int, 0)
    } else {
        Set::empty()
    }
}

/// Whether the entries come in increasing order of name.
pub open spec fn names_ascending(s: Seq<(String, i32)>) -> bool {
    forall|i: int, j: int| 0 <= i < j < s.len() ==> name_lt(#[trigger] s[i].0@, #[trigger] s[j].0@)
}

/// The entries of `s` in increasing order of name.
pub open spec fn by_name(s: Seq<(String, i32)>) -> Seq<(String, i32)> {
    choose|t: Seq<(String, i32)>| names_ascending(t) && t.to_set() == s.to_set()
}

/// The ids of the vertex labels of a pattern meta, in increasing order of label name.
pub open spec fn vertex_ids_by_name(m: PatternMetaView) -> Seq<i32> {
    by_name(m.vertex_map).map_values(|e: (String, i32)| e.1)
}

/// The ids of the edge labels of a pattern meta, in increasing order of label name.
pub open spec fn edge_ids_by_name(m: PatternMetaView) -> Seq<i32> {
    by_name(m.edge_map).map_values(|e: (String, i32)| e.1)
}

/// Two lists of entries in increasing order of name with the same entries are equal.
proof fn lemma_names_ascending_unique(s1: Seq<(String, i32)>, s2: Seq<(String, i32)>)
    requires
        names_ascending(s1),
        names_ascending(s2),
        s1.to_set() == s2.to_set(),
    ensures
        s1 == s2,
    decreases s1.len(),
{
    if s1.len() == 0 {
        if s2.len() > 0 {
            assert(s2.to_set().contains(s2[0]));
        }
    } else {
        assert(s1.to_set().contains(s1[0]));
        assert(s2.len() > 0);
        assert(s2.to_set().contains(s2[0]));
        let i1 = choose|i: int| 0 <= i < s1.len() && s1[i] == s2[0];
        let i2 = choose|i: int| 0 <= i < s2.len() && s2[i] == s1[0];
        if s1[0] != s2[0] {
            assert(name_lt(s1[0].0@, s1[i1].0@));
            assert(name_lt(s2[0].0@, s2[i2].0@));
            lemma_name_lt_transitive(s1[0].0@, s2[0].0@, s1[0].0@);
            lemma_name_lt_irreflexive(s1[0].0@);
        }
        let t1 = s1.drop_first();
        let t2 = s2.drop_first();
        assert forall|x: (String, i32)| t1.to_set().contains(x) <==> t2.to_set().contains(x) by {
            if t1.to_set().contains(x) {
                let i = choose|i: int| 0 <= i < t1.len() && t1[i] == x;
                assert(s1[i + 1] == x);
                assert(s2.to_set().contains(x));
                let j = choose|j: int| 0 <= j < s2.len() && s2[j] == x;
                if j == 0 {
                    assert(name_lt(s1[0].0@, s1[i + 1].0@));
                    lemma_name_lt_irreflexive(x.0@);
                }
                assert(t2[j - 1] == x);
            }
            if t2.to_set().contains(x) {
                let i = choose|i: int| 0 <= i < t2.len() && t2[i] == x;
                assert(s2[i + 1] == x);
                assert(s1.to_set().contains(x));
                let j = choose|j: int| 0 <= j < s1.len() && s1[j] == x;
                if j == 0 {
                    assert(name_lt(s2[0].0@, s2[i + 1].0@));
                    lemma_name_lt_irreflexive(x.0@);
                }
                assert(t1[j - 1] == x);
            }
        }
        assert(t1.to_set() =~= t2.to_set());
        assert(names_ascending(t1)) by {
            assert forall|a: int, b: int| 0 <= a < b < t1.len() implies name_lt(#[trigger] t1[a].0@, #[trigger] t1[b].0@) by {
                assert(t1[a] == s1[a + 1] && t1[b] == s1[b + 1]);
            }
        }
        assert(names_ascending(t2)) by {
            assert forall|a: int, b: int| 0 <= a < b < t2.len() implies name_lt(#[trigger] t2[a].0@, #[trigger] t2[b].0@) by {
                assert(t2[a] == s2[a + 1] && t2[b] == s2[b + 1]);
            }
        }
        lemma_names_ascending_unique(t1, t2);
        assert(s1 =~= s2) by {
            assert(s1 == seq![s1[0]] + t1);
            assert(s2 == seq![s2[0]] + t2);
        }
    }
}

/// The ids of the entries, in increasing order of name.
fn ids_by_name(entries: &Vec<(String, i32)>) -> (ids: Vec<i32>)
    requires
        names_distinct(entries@),
    ensures
        ids@ == by_name(entries@).map_values(|e: (String, i32)| e.1),
        ids@.len() == entries@.len(),
        forall|k: Seq<char>| #[trigger] lookup_name(entries@, k) is Some ==> ids@.contains(lookup_name(entries@, k)->0),
{
    let ghost s = entries@;
    let n = entries.len();
    // Positions of the entries, kept in increasing order of name
    let mut order: Vec<usize> = Vec::new();
    let mut i: usize = 0;
    while i < n
        invariant
            n == s.len(),
            s == entries@,
            names_distinct(s),
            i <= n,
            forall|k: int| 0 <= k < order@.len() ==> (#[trigger] order@[k]) < i,
            names_ascending(order@.map_values(|k: usize| s[k as int])),
            order@.map_values(|k: usize| s[k as int]).to_set() == s.take(i as int).to_set(),
        decreases n - i,
    {
        let ghost sorted = order@.map_values(|k: usize| s[k as int]);
        let mut j: usize = 0;
        while j < order.len() && !name_less(&entries[i].0, &entries[order[j]].0)
            invariant
                n == s.len(),
                s == entries@,
                i < n,
                j <= order@.len(),
                sorted == order@.map_values(|k: usize| s[k as int]),
                forall|k: int| 0 <= k < order@.len() ==> (#[trigger] order@[k]) < i,
                forall|k: int| 0 <= k < j ==> !name_lt(s[i as int].0@, #[trigger] sorted[k].0@),
            decreases order@.len() - j,
        {
            j = j + 1;
        }
        let ghost before = order@;
        order.insert(j, i);
        proof {
            let new_sorted = order@.map_values(|k: usize| s[k as int]);
            let x = s[i as int];
            assert(new_sorted =~= sorted.insert(j as int, x));
            // every entry placed so far has a name different from entry i
            assert forall|k: int| 0 <= k < sorted.len() implies (#[trigger] sorted[k]).0@ != x.0@ by {
                assert(before[k] < i);
                assert(sorted[k] == s[before[k] as int]);
            }
            assert forall|a: int, b: int| 0 <= a < b < new_sorted.len() implies name_lt(#[trigger] new_sorted[a].0@, #[trigger] new_sorted[b].0@) by {
                if b < j {
                    assert(new_sorted[a] == sorted[a] && new_sorted[b] == sorted[b]);
                } else if b == j {
                    assert(new_sorted[a] == sorted[a]);
                    lemma_name_lt_total(sorted[a].0@, x.0@);
                } else if a < j {
                    assert(new_sorted[a] == sorted[a] && new_sorted[b] == sorted[b - 1]);
                } else if a == j {
                    assert(new_sorted[b] == sorted[b - 1]);
                    assert(name_lt(x.0@, sorted[j as int].0@));
                    if b - 1 > j {
                        lemma_name_lt_transitive(x.0@, sorted[j as int].0@, sorted[b - 1].0@);
                    }
                } else {
                    assert(new_sorted[a] == sorted[a - 1] && new_sorted[b] == sorted[b - 1]);
                }
            }
            assert(s.take(i + 1) == s.take(i as int).push(x));
            s.take(i as int).lemma_push_to_set_commute(x);
            assert(new_sorted.to_set() =~= sorted.to_set().insert(x)) by {
                assert forall|y: (String, i32)| new_sorted.to_set().contains(y) implies sorted.to_set().insert(x).contains(y) by {
                    let k = choose|k: int| 0 <= k < new_sorted.len() && new_sorted[k] == y;
                    if k < j {
                        assert(sorted[k] == y);
                        assert(sorted.to_set().contains(sorted[k]));
                    } else if k > j {
                        assert(sorted[k - 1] == y);
                        assert(sorted.to_set().contains(sorted[k - 1]));
                    }
                }
                assert forall|y: (String, i32)| sorted.to_set().insert(x).contains(y) implies new_sorted.to_set().contains(y) by {
                    if y == x {
                        assert(new_sorted[j as int] == y);
                    } else {
                        let m = choose|m: int| 0 <= m < sorted.len() && sorted[m] == y;
                        if m < j {
                            assert(new_sorted[m] == y);
                        } else {
                            assert(new_sorted[m + 1] == y);
                        }
                    }
                }
            }
            assert forall|k: int| 0 <= k < order@.len() implies (#[trigger] order@[k]) < i + 1 by {
                if k < j {
                    assert(order@[k] == before[k]);
                } else if k > j {
                    assert(order@[k] == before[k - 1]);
                }
            }
        }
        i = i + 1;
    }
    let ghost sorted = order@.map_values(|k: usize| s[k as int]);
    proof {
        assert(s.take(n as int) == s);
        lemma_names_ascending_unique(sorted, by_name(s));
    }
    let mut ids: Vec<i32> = Vec::new();
    let mut t: usize = 0;
    while t < order.len()
        invariant
            s == entries@,
            n == s.len(),
            sorted == order@.map_values(|k: usize| s[k as int]),
            forall|k: int| 0 <= k < order@.len() ==> (#[trigger] order@[k]) < n,
            t <= order@.len(),
            ids@ == sorted.take(t as int).map_values(|e: (String, i32)| e.1),
        decreases order@.len() - t,
    {
        ids.push(entries[order[t]].1);
        proof {
            assert(sorted.take(t + 1) == sorted.take(t as int).push(sorted[t as int]));
            assert(ids@ =~= sorted.take(t + 1).map_values(|e: (String, i32)| e.1));
        }
        t = t + 1;
    }
    proof {
        assert(sorted.take(sorted.len() as int) == sorted);
        lemma_by_name_members(s, sorted);
    }
    ids
}

/// Entries in name order with the same members as entries of distinct names are as many,
/// and hold the value stored under each name.
proof fn lemma_by_name_members(s: Seq<(String, i32)>, t: Seq<(String, i32)>)
    requires
        names_distinct(s),
        names_ascending(t),
        t.to_set() == s.to_set(),
    ensures
        t.len() == s.len(),
        forall|k: Seq<char>| #[trigger] lookup_name(s, k) is Some ==> t.map_values(|e: (String, i32)| e.1).contains(lookup_name(s, k)->0),
{
    assert(s.no_duplicates()) by {
        assert forall|i: int, j: int| 0 <= i < s.len() && 0 <= j < s.len() && i != j implies s[i] != s[j] by {
            if i < j {
                assert(s[i].0@ != s[j].0@);
            } else {
                assert(s[j].0@ != s[i].0@);
            }
        }
    }
    assert(t.no_duplicates()) by {
        assert forall|i: int, j: int| 0 <= i < t.len() && 0 <= j < t.len() && i != j implies t[i] != t[j] by {
            if i < j {
                assert(name_lt(t[i].0@, t[j].0@));
            } else {
                assert(name_lt(t[j].0@, t[i].0@));
            }
            lemma_name_lt_irreflexive(t[i].0@);
        }
    }
    s.unique_seq_to_set();
    t.unique_seq_to_set();
    assert forall|k: Seq<char>| #[trigger] lookup_name(s, k) is Some implies t.map_values(|e: (String, i32)| e.1).contains(lookup_name(s, k)->0) by {
        let c = name_index(s, k);
        assert(s.to_set().contains(s[c]));
        let m = choose|m: int| 0 <= m < t.len() && t[m] == s[c];
        assert(t.map_values(|e: (String, i32)| e.1)[m] == s[c].1);
    }
}

impl PatternMeta {
    pub fn get_vertex_num(&self) -> (num: usize)
        ensures
            num == self@.vertex_map.len(),
    {
        self.vertex_map.len()
    }

    pub fn get_edge_num(&self) -> (num: usize)
        ensures
            num == self@.edge_map.len(),
    {
        self.edge_map.len()
    }

    /// The ids of the vertex labels, in increasing order of label name.
    pub fn get_all_vertex_ids(&self) -> (ids: Vec<i32>)
        requires
            self@.wf(),
        ensures
            ids@ == vertex_ids_by_name(self@),
            ids@.len() == self@.vertex_map.len(),
            forall|k: Seq<char>| #[trigger] lookup_name(self@.vertex_map, k) is Some ==> ids@.contains(lookup_name(self@.vertex_map, k)->0),
    {
        ids_by_name(&self.vertex_map)
    }

    /// The ids of the edge labels, in increasing order of label name.
    pub fn get_all_edge_ids(&self) -> (ids: Vec<i32>)
        requires
            self@.wf(),
        ensures
            ids@ == edge_ids_by_name(self@),
            ids@.len() == self@.edge_map.len(),
            forall|k: Seq<char>| #[trigger] lookup_name(self@.edge_map, k) is Some ==> ids@.contains(lookup_name(self@.edge_map, k)->0),
    {
        ids_by_name(&self.edge_map)
    }

    pub fn get_vertex_id(&self, label_name: &str) -> (id: Option<i32>)
        requires
            self@.wf(),
        ensures
            id == lookup_name(self@.vertex_map, label_name@),
    {
        let key = label_name.to_owned();
        match find_name(&self.vertex_map, &key) {
            Some(i) => Some(self.vertex_map[i].1),
            None => None,
        }
    }

    pub fn get_edge_id(&self, label_name: &str) -> (id: Option<i32>)
        requires
            self@.wf(),
        ensures
            id == lookup_name(self@.edge_map, label_name@),
    {
        let key = label_name.to_owned();
        match find_name(&self.edge_map, &key) {
            Some(i) => Some(self.edge_map[i].1),
            None => None,
        }
    }

    pub fn get_connect_vertices_of_v(&self, src_v_id: i32) -> (connect_vertices: BTreeSet<i32>)
        requires
            self@.wf(),
        ensures
            connect_vertices@ == connected_vertices(self@, src_v_id),
    {
        broadcast use vstd::std_specs::btree::group_btree_axioms;
        proof {
            lemma_i32_keys_ordered();
        }
        let ghost m = self@;
        let mut connect_vertices = BTreeSet::new();
        match self.vertex_connect_edges.get(&src_v_id) {
            Some(connections) => {
                let ghost conns = connections@;
                assert(m.vertex_connect_edges[src_v_id] == conns);
                assert(connect_vertices@ =~= reached(m, conns, 0, 0));
                for i in 0..connections.len()
                    invariant
                        m == self@,
                        m.wf(),
                        m.vertex_connect_edges.contains_key(src_v_id),
                        m.vertex_connect_edges[src_v_id] == conns,
                        conns == connections@,
                        connect_vertices@ == reached(m, conns, i as int, 0),
                {
                    let (edge_id, dir) = connections[i];
                    assert(m.edge_connect_vertices.contains_key(conns[i as int].0));
                    let possible_edges = match self.edge_connect_vertices.get(&edge_id) {
                        Some(possible_edges) => possible_edges,
                        None => {
                            assert(false);
                            return connect_vertices;
                        },
                    };
                    assert(m.edge_connect_vertices[edge_id] == possible_edges@);
                    for j in 0..possible_edges.len()
                        invariant
                            m == self@,
                            i < conns.len(),
                            conns[i as int] == (edge_id, dir),
                            m.edge_connect_vertices.contains_key(edge_id),
                            m.edge_connect_vertices[edge_id] == possible_edges@,
                            connect_vertices@ == reached(m, conns, i as int, j as int),
                    {
                        let (start_v_id, end_v_id) = possible_edges[j];
                        let ghost before = connect_vertices@;
                        match dir {
                            Direction::Out => {
                                connect_vertices.insert(end_v_id);
                            },
                            Direction::Incoming => {
                                connect_vertices.insert(start_v_id);
                            },
                        }
                        proof {
                            let x = far_end(dir, (start_v_id, end_v_id));
                            assert(m.edge_connect_vertices[conns[i as int].0][j as int] == (start_v_id, end_v_id));
                            assert forall|y: i32| connect_vertices@.contains(y) <==> reached(m, conns, i as int, j + 1).contains(y) by {
                                if y == x {
                                    assert(reached(m, conns, i as int, j + 1).contains(y));
                                }
                                if reached(m, conns, i as int, j + 1).contains(y) && y != x {
                                    let (a, b) = choose|a: int, b: int|
                                        #![trigger m.edge_connect_vertices[conns[a].0][b]]
                                        0 <= a < conns.len() && 0 <= b < m.edge_connect_vertices[conns[a].0].len() && (a < i || (a == i && b < j + 1)) && y == far_end(conns[a].1, m.edge_connect_vertices[conns[a].0][b]);
                                    assert(before.contains(y));
                                }
                            }
                            assert(connect_vertices@ =~= reached(m, conns, i as int, j + 1));
                        }
                    }
                    proof {
                        assert forall|y: i32| reached(m, conns, i as int, possible_edges@.len() as int).contains(y) <==> reached(m, conns, i + 1, 0).contains(y) by {
                            if reached(m, conns, i + 1, 0).contains(y) {
                                let (a, b) = choose|a: int, b: int|
                                    #![trigger m.edge_connect_vertices[conns[a].0][b]]
                                    0 <= a < conns.len() && 0 <= b < m.edge_connect_vertices[conns[a].0].len() && (a < i + 1 || (a == i + 1 && b < 0)) && y == far_end(conns[a].1, m.edge_connect_vertices[conns[a].0][b]);
                                assert(reached(m, conns, i as int, possible_edges@.len() as int).contains(y));
                            }
                        }
                        assert(reached(m, conns, i as int, possible_edges@.len() as int) =~= reached(m, conns, i + 1, 0));
                    }
                }
            },
            None => {
                assert(connect_vertices@ =~= Set::<i32>::empty());
            },
        }
        connect_vertices
    }

    pub fn get_connect_edges_of_v(&self, src_v_id: i32) -> (connections: Vec<(i32, Direction)>)
        ensures
            connections@ == (if self@.vertex_connect_edges.contains_key(src_v_id) {
                self@.vertex_connect_edges[src_v_id]
            } else {
                Seq::empty()
            }),
    {
        broadcast use vstd::std_specs::btree::group_btree_axioms;
        proof {
            lemma_i32_keys_ordered();
        }
        match self.vertex_connect_edges.get(&src_v_id) {
            Some(connections) => copy_connections(connections),
            None => Vec::new(),
        }
    }

    pub fn get_edges_between_vertices(&self, src_v_id: i32, dst_v_id: i32) -> (edges: Vec<(i32, Direction)>)
        ensures
            edges@ == (if self@.vertex_vertex_edges.contains_key((src_v_id, dst_v_id)) {
                self@.vertex_vertex_edges[(src_v_id, dst_v_id)]
            } else {
                Seq::empty()
            }),
    {
        broadcast use vstd::std_specs::btree::group_btree_axioms;
        proof {
            lemma_pair_keys_ordered();
        }
        match self.vertex_vertex_edges.get(&(src_v_id, dst_v_id)) {
            Some(edges) => copy_connections(edges),
            None => Vec::new(),
        }
    }
}

/// A copy of a list of (edge label, direction) connections.
fn copy_connections(v: &Vec<(i32, Direction)>) -> (r: Vec<(i32, Direction)>)
    ensures
        r@ == v@,
{
    let mut r: Vec<(i32, Direction)> = Vec::new();
    for i in 0..v.len()
        invariant
            r@ == v@.take(i as int),
    {
        r.push(v[i]);
        proof {
            assert(v@.take(i + 1) == v@.take(i as int).push(v@[i as int]));
        }
    }
    proof {
        assert(v@.take(v@.len() as int) == v@);
    }
    r
}

} // verus!

verus! {

/// Whether the list stored under `k` in `m` holds `x`.
pub open spec fn listed<K, T>(m: Map<K, Seq<T>>, k: K, x: T) -> bool {
    m.contains_key(k) && m[k].contains(x)
}

/// After appending `x` under `k`, a list holds what it held before, and `x` under `k`.
proof fn lemma_listed_append<K, T>(m: Map<K, Seq<T>>, k: K, x: T, k2: K, y: T)
    ensures
        listed(map_append(m, k, x), k2, y) <==> (listed(m, k2, y) || (k2 == k && y == x)),
{
    let m2 = map_append(m, k, x);
    if k2 == k {
        if m.contains_key(k) {
            assert(m2[k] == m[k].push(x));
            if m[k].contains(y) {
                let i = choose|i: int| 0 <= i < m[k].len() && m[k][i] == y;
                assert(m2[k][i] == y);
            }
            if m2[k].contains(y) && y != x {
                let i = choose|i: int| 0 <= i < m2[k].len() && m2[k][i] == y;
                assert(m[k][i] == y);
            }
            assert(m2[k][m[k].len() as int] == x);
        } else {
            assert(m2[k] == seq![x]);
            assert(m2[k][0] == x);
        }
    }
}

/// How the three connection maps of a pattern meta agree: an edge label `id` records the
/// vertex label pair `(s, e)` exactly when the pair `(s, e)` lists `id` going out and the pair
/// `(e, s)` lists it coming in; a vertex label lists `id` going out exactly when `id` records
/// a pair that starts there, and coming in exactly when `id` records a pair that ends there.
pub open spec fn connections_agree(m: PatternMetaView) -> bool {
    &&& forall|id: i32, s: i32, e: i32|
        #![trigger listed(m.edge_connect_vertices, id, (s, e))]
        #![trigger listed(m.vertex_vertex_edges, (s, e), (id, Direction::Out))]
        #![trigger listed(m.vertex_vertex_edges, (e, s), (id, Direction::Incoming))]
        (listed(m.edge_connect_vertices, id, (s, e)) <==> listed(m.vertex_vertex_edges, (s, e), (id, Direction::Out)))
            && (listed(m.edge_connect_vertices, id, (s, e)) <==> listed(m.vertex_vertex_edges, (e, s), (id, Direction::Incoming)))
    &&& forall|v: i32, id: i32|
        #[trigger] listed(m.vertex_connect_edges, v, (id, Direction::Out)) <==> exists|e: i32| #[trigger] listed(m.edge_connect_vertices, id, (v, e))
    &&& forall|v: i32, id: i32|
        #[trigger] listed(m.vertex_connect_edges, v, (id, Direction::Incoming)) <==> exists|s: i32| #[trigger] listed(m.edge_connect_vertices, id, (s, v))
}

/// Recording an edge label between two vertex labels keeps the connection maps in agreement.
proof fn lemma_add_connection_agrees(m: PatternMetaView, id: i32, s: i32, e: i32)
    requires
        connections_agree(m),
    ensures
        connections_agree(add_connection(m, id, s, e)),
{
    let m2 = add_connection(m, id, s, e);
    let vce1 = map_append(m.vertex_connect_edges, s, (id, Direction::Out));
    let vve1 = map_append(m.vertex_vertex_edges, (s, e), (id, Direction::Out));
    assert forall|id2: i32, s2: i32, e2: i32|
        (listed(m2.edge_connect_vertices, id2, (s2, e2)) <==> listed(m2.vertex_vertex_edges, (s2, e2), (id2, Direction::Out)))
            && (listed(m2.edge_connect_vertices, id2, (s2, e2)) <==> listed(m2.vertex_vertex_edges, (e2, s2), (id2, Direction::Incoming))) by {
        lemma_listed_append(m.edge_connect_vertices, id, (s, e), id2, (s2, e2));
        lemma_listed_append(vve1, (e, s), (id, Direction::Incoming), (s2, e2), (id2, Direction::Out));
        lemma_listed_append(m.vertex_vertex_edges, (s, e), (id, Direction::Out), (s2, e2), (id2, Direction::Out));
        lemma_listed_append(vve1, (e, s), (id, Direction::Incoming), (e2, s2), (id2, Direction::Incoming));
        lemma_listed_append(m.vertex_vertex_edges, (s, e), (id, Direction::Out), (e2, s2), (id2, Direction::Incoming));
    }
    assert forall|v: i32, id2: i32|
        #[trigger] listed(m2.vertex_connect_edges, v, (id2, Direction::Out)) <==> exists|e2: i32| #[trigger] listed(m2.edge_connect_vertices, id2, (v, e2)) by {
        lemma_listed_append(vce1, e, (id, Direction::Incoming), v, (id2, Direction::Out));
        lemma_listed_append(m.vertex_connect_edges, s, (id, Direction::Out), v, (id2, Direction::Out));
        if listed(m2.vertex_connect_edges, v, (id2, Direction::Out)) {
            if listed(m.vertex_connect_edges, v, (id2, Direction::Out)) {
                let e2 = choose|e2: i32| #[trigger] listed(m.edge_connect_vertices, id2, (v, e2));
                lemma_listed_append(m.edge_connect_vertices, id, (s, e), id2, (v, e2));
                assert(listed(m2.edge_connect_vertices, id2, (v, e2)));
            } else {
                lemma_listed_append(m.edge_connect_vertices, id, (s, e), id2, (v, e));
                assert(listed(m2.edge_connect_vertices, id2, (v, e)));
            }
        }
        if exists|e2: i32| #[trigger] listed(m2.edge_connect_vertices, id2, (v, e2)) {
            let e2 = choose|e2: i32| #[trigger] listed(m2.edge_connect_vertices, id2, (v, e2));
            lemma_listed_append(m.edge_connect_vertices, id, (s, e), id2, (v, e2));
            if listed(m.edge_connect_vertices, id2, (v, e2)) {
                assert(listed(m.vertex_connect_edges, v, (id2, Direction::Out)));
            }
        }
    }
    assert forall|v: i32, id2: i32|
        #[trigger] listed(m2.vertex_connect_edges, v, (id2, Direction::Incoming)) <==> exists|s2: i32| #[trigger] listed(m2.edge_connect_vertices, id2, (s2, v)) by {
        lemma_listed_append(vce1, e, (id, Direction::Incoming), v, (id2, Direction::Incoming));
        lemma_listed_append(m.vertex_connect_edges, s, (id, Direction::Out), v, (id2, Direction::Incoming));
        if listed(m2.vertex_connect_edges, v, (id2, Direction::Incoming)) {
            if listed(m.vertex_connect_edges, v, (id2, Direction::Incoming)) {
                let s2 = choose|s2: i32| #[trigger] listed(m.edge_connect_vertices, id2, (s2, v));
                lemma_listed_append(m.edge_connect_vertices, id, (s, e), id2, (s2, v));
                assert(listed(m2.edge_connect_vertices, id2, (s2, v)));
            } else {
                lemma_listed_append(m.edge_connect_vertices, id, (s, e), id2, (s, v));
                assert(listed(m2.edge_connect_vertices, id2, (s, v)));
            }
        }
        if exists|s2: i32| #[trigger] listed(m2.edge_connect_vertices, id2, (s2, v)) {
            let s2 = choose|s2: i32| #[trigger] listed(m2.edge_connect_vertices, id2, (s2, v));
            lemma_listed_append(m.edge_connect_vertices, id, (s, e), id2, (s2, v));
            if listed(m.edge_connect_vertices, id2, (s2, v)) {
                assert(listed(m.vertex_connect_edges, v, (id2, Direction::Incoming)));
            }
        }
    }
}

/// Registering tables one after the other keeps the connection maps in agreement.
pub proof fn lemma_register_tables_agree(sch: SchemaView, entries: Seq<(String, i32)>)
    ensures
        connections_agree(register_tables(sch, entries)),
    decreases entries.len(),
{
    if entries.len() > 0 {
        lemma_register_tables_agree(sch, entries.drop_last());
        let m = register_tables(sch, entries.drop_last());
        let entry = entries.last();
        match lookup_name(sch.rel_entity_labels, entry.0@) {
            Some(ends) => {
                let s = lookup_name(sch.table_map, ends.0@)->0;
                let e = lookup_name(sch.table_map, ends.1@)->0;
                let m1 = PatternMetaView { edge_map: insert_name(m.edge_map, entry.0, entry.1), ..m };
                assert(connections_agree(m1));
                lemma_add_connection_agrees(m1, entry.1, s, e);
                assert(register_tables(sch, entries) == add_connection(m1, entry.1, s, e));
            },
            None => {
                let m1 = register_tables(sch, entries);
                assert(m1.vertex_connect_edges == m.vertex_connect_edges);
                assert(m1.edge_connect_vertices == m.edge_connect_vertices);
                assert(m1.vertex_vertex_edges == m.vertex_vertex_edges);
            },
        }
    } else {
        let m = register_tables(sch, entries);
        assert forall|v: i32, id: i32|
            #[trigger] listed(m.vertex_connect_edges, v, (id, Direction::Out)) <==> exists|e: i32| #[trigger] listed(m.edge_connect_vertices, id, (v, e)) by {
            assert(!listed(m.vertex_connect_edges, v, (id, Direction::Out)));
        }
        assert forall|v: i32, id: i32|
            #[trigger] listed(m.vertex_connect_edges, v, (id, Direction::Incoming)) <==> exists|s: i32| #[trigger] listed(m.edge_connect_vertices, id, (s, v)) by {
            assert(!listed(m.vertex_connect_edges, v, (id, Direction::Incoming)));
        }
    }
}

/// In the pattern meta of a schema, edge label `id` goes out from vertex label `s` to vertex
/// label `e` exactly when it comes in to `e` from `s`.
pub proof fn lemma_edges_between_symmetric(sch: SchemaView, id: i32, s: i32, e: i32)
    ensures
        listed(register_tables(sch, sch.table_map).vertex_vertex_edges, (s, e), (id, Direction::Out))
            <==> listed(register_tables(sch, sch.table_map).vertex_vertex_edges, (e, s), (id, Direction::Incoming)),
{
    lemma_register_tables_agree(sch, sch.table_map);
    let m = register_tables(sch, sch.table_map);
    assert(listed(m.edge_connect_vertices, id, (s, e)) <==> listed(m.vertex_vertex_edges, (s, e), (id, Direction::Out)));
}

/// Every edge label records at most one pair of vertex labels.
pub open spec fn one_pair_per_edge_label(m: PatternMetaView) -> bool {
    forall|id: i32, a: (i32, i32), b: (i32, i32)|
        #[trigger] listed(m.edge_connect_vertices, id, a) && #[trigger] listed(m.edge_connect_vertices, id, b) ==> a == b
}

/// Where every edge label of the pattern meta of a schema connects one pair of vertex labels,
/// the vertex labels that `v` connects to are exactly those with an edge between `v` and them.
pub proof fn lemma_connected_vertices_are_neighbours(sch: SchemaView, v: i32, u: i32)
    requires
        one_pair_per_edge_label(register_tables(sch, sch.table_map)),
    ensures
        connected_vertices(register_tables(sch, sch.table_map), v).contains(u) <==> {
            let m = register_tables(sch, sch.table_map);
            m.vertex_vertex_edges.contains_key((v, u)) && m.vertex_vertex_edges[(v, u)].len() > 0
        },
{
    let m = register_tables(sch, sch.table_map);
    lemma_register_tables_agree(sch, sch.table_map);
    if connected_vertices(m, v).contains(u) {
        let conns = m.vertex_connect_edges[v];
        let (a, b) = choose|a: int, b: int|
            #![trigger m.edge_connect_vertices[conns[a].0][b]]
            0 <= a < conns.len() && 0 <= b < m.edge_connect_vertices[conns[a].0].len() && (a < conns.len() || (a == conns.len() && b < 0))
                && u == far_end(conns[a].1, m.edge_connect_vertices[conns[a].0][b]);
        let (id, d) = conns[a];
        assert(listed(m.vertex_connect_edges, v, (id, d)));
        if d == Direction::Out {
            let e = choose|e: i32| #[trigger] listed(m.edge_connect_vertices, id, (v, e));
            let pair = m.edge_connect_vertices[id][b];
            assert(listed(m.edge_connect_vertices, id, pair));
            assert(pair == (v, e));
            assert(listed(m.vertex_vertex_edges, (v, u), (id, Direction::Out)));
        } else {
            let s = choose|s: i32| #[trigger] listed(m.edge_connect_vertices, id, (s, v));
            let pair = m.edge_connect_vertices[id][b];
            assert(listed(m.edge_connect_vertices, id, pair));
            assert(pair == (s, v));
            assert(listed(m.vertex_vertex_edges, (v, u), (id, Direction::Incoming)));
        }
    }
    if m.vertex_vertex_edges.contains_key((v, u)) && m.vertex_vertex_edges[(v, u)].len() > 0 {
        let (id, d) = m.vertex_vertex_edges[(v, u)][0];
        assert(listed(m.vertex_vertex_edges, (v, u), (id, d)));
        let pair = if d == Direction::Out { (v, u) } else { (u, v) };
        assert(listed(m.edge_connect_vertices, id, pair));
        assert(listed(m.vertex_connect_edges, v, (id, d)));
        let conns = m.vertex_connect_edges[v];
        let a = choose|a: int| 0 <= a < conns.len() && conns[a] == (id, d);
        let b = choose|b: int| 0 <= b < m.edge_connect_vertices[id].len() && m.edge_connect_vertices[id][b] == pair;
        assert(u == far_end(conns[a].1, m.edge_connect_vertices[conns[a].0][b]));
        assert(connected_vertices(m, v).contains(u));
    }
}

/// Storing under a name adds that name and keeps the others.
proof fn lemma_has_name_insert<V>(s: Seq<(String, V)>, k: String, v: V, n: Seq<char>)
    ensures
        has_name(insert_name(s, k, v), n) <==> (has_name(s, n) || k@ == n),
{
    let t = insert_name(s, k, v);
    if has_name(s, k@) {
        let c = name_index(s, k@);
        if has_name(s, n) && n != k@ {
            let i = choose|i: int| 0 <= i < s.len() && (#[trigger] s[i]).0@ == n;
            assert(t[i] == s[i]);
        }
        if has_name(t, n) && n != k@ {
            let i = choose|i: int| 0 <= i < t.len() && (#[trigger] t[i]).0@ == n;
            assert(t[i] == s[i]);
        }
        assert(t[c].0@ == k@);
    } else {
        if has_name(s, n) {
            let i = choose|i: int| 0 <= i < s.len() && (#[trigger] s[i]).0@ == n;
            assert(t[i] == s[i]);
        }
        if has_name(t, n) {
            let i = choose|i: int| 0 <= i < t.len() && (#[trigger] t[i]).0@ == n;
            if i < s.len() {
                assert(t[i] == s[i]);
            }
        }
        assert(t[s.len() as int].0@ == k@);
    }
}

/// The names that registering `entries` makes vertex labels and edge labels.
proof fn lemma_registered_names(sch: SchemaView, entries: Seq<(String, i32)>, n: Seq<char>)
    ensures
        has_name(register_tables(sch, entries).vertex_map, n) <==> has_name(entries, n) && lookup_name(sch.rel_entity_labels, n) is None,
        has_name(register_tables(sch, entries).edge_map, n) <==> has_name(entries, n) && lookup_name(sch.rel_entity_labels, n) is Some,
    decreases entries.len(),
{
    if entries.len() > 0 {
        let rest = entries.drop_last();
        let entry = entries.last();
        lemma_registered_names(sch, rest, n);
        let m = register_tables(sch, rest);
        lemma_has_name_insert(m.vertex_map, entry.0, entry.1, n);
        lemma_has_name_insert(m.edge_map, entry.0, entry.1, n);
        assert(has_name(entries, n) <==> has_name(rest, n) || entry.0@ == n) by {
            if has_name(entries, n) {
                let i = choose|i: int| 0 <= i < entries.len() && (#[trigger] entries[i]).0@ == n;
                if i < rest.len() {
                    assert(rest[i] == entries[i]);
                }
            }
            if has_name(rest, n) {
                let i = choose|i: int| 0 <= i < rest.len() && (#[trigger] rest[i]).0@ == n;
                assert(rest[i] == entries[i]);
            }
            assert(entries[entries.len() - 1] == entry);
        }
    } else {
        assert(!has_name(entries, n));
    }
}

/// A name is a vertex label of the pattern meta of a schema exactly when it is a table of the
/// schema that is not a relation, and an edge label exactly when it is a relation among its
/// tables.
pub proof fn lemma_vertex_labels_are_entities(sch: SchemaView, n: Seq<char>)
    ensures
        has_name(register_tables(sch, sch.table_map).vertex_map, n) <==> has_name(sch.table_map, n) && lookup_name(
            sch.rel_entity_labels,
            n,
        ) is None,
        has_name(register_tables(sch, sch.table_map).edge_map, n) <==> has_name(sch.table_map, n) && lookup_name(
            sch.rel_entity_labels,
            n,
        ) is Some,
{
    lemma_registered_names(sch, sch.table_map, n);
}

/// How many times the list stored under `k` in `m` holds `x`.
pub open spec fn listed_count<K, T>(m: Map<K, Seq<T>>, k: K, x: T) -> nat {
    if m.contains_key(k) {
        m[k].to_multiset().count(x)
    } else {
        0
    }
}

/// How many of the pairs `ps` start at `v`.
pub open spec fn pairs_from(ps: Seq<(i32, i32)>, v: i32) -> nat
    decreases ps.len(),
{
    if ps.len() == 0 {
        0
    } else {
        pairs_from(ps.drop_last(), v) + if ps.last().0 == v { 1nat } else { 0nat }
    }
}

/// How many of the pairs `ps` end at `v`.
pub open spec fn pairs_to(ps: Seq<(i32, i32)>, v: i32) -> nat
    decreases ps.len(),
{
    if ps.len() == 0 {
        0
    } else {
        pairs_to(ps.drop_last(), v) + if ps.last().1 == v { 1nat } else { 0nat }
    }
}

/// The pairs that edge label `id` records, none where it records nothing.
pub open spec fn recorded_pairs(m: PatternMetaView, id: i32) -> Seq<(i32, i32)> {
    if m.edge_connect_vertices.contains_key(id) {
        m.edge_connect_vertices[id]
    } else {
        Seq::empty()
    }
}

/// How the connection maps of a pattern meta count alike: the pair `(s, e)` lists edge label
/// `id` going out, and the pair `(e, s)` lists it coming in, as many times as `id` records
/// the pair `(s, e)`; a vertex label lists `id` going out as many times as `id` records a pair
/// that starts there, and coming in as many times as it records a pair that ends there.
pub open spec fn connections_counted(m: PatternMetaView) -> bool {
    &&& forall|id: i32, s: i32, e: i32|
        #![trigger listed_count(m.vertex_vertex_edges, (s, e), (id, Direction::Out))]
        #![trigger listed_count(m.vertex_vertex_edges, (e, s), (id, Direction::Incoming))]
        #![trigger listed_count(m.edge_connect_vertices, id, (s, e))]
        listed_count(m.vertex_vertex_edges, (s, e), (id, Direction::Out)) == listed_count(m.edge_connect_vertices, id, (s, e))
            && listed_count(m.vertex_vertex_edges, (e, s), (id, Direction::Incoming)) == listed_count(m.edge_connect_vertices, id, (s, e))
    &&& forall|v: i32, id: i32|
        #![trigger listed_count(m.vertex_connect_edges, v, (id, Direction::Out))]
        #![trigger listed_count(m.vertex_connect_edges, v, (id, Direction::Incoming))]
        listed_count(m.vertex_connect_edges, v, (id, Direction::Out)) == pairs_from(recorded_pairs(m, id), v)
            && listed_count(m.vertex_connect_edges, v, (id, Direction::Incoming)) == pairs_to(recorded_pairs(m, id), v)
}

/// Appending `x` under `k` counts `x` once more under `k`, and nothing else changes.
proof fn lemma_listed_count_append<K, T>(m: Map<K, Seq<T>>, k: K, x: T, k2: K, y: T)
    ensures
        listed_count(map_append(m, k, x), k2, y) == listed_count(m, k2, y) + if k2 == k && y == x { 1nat } else { 0nat },
{
    broadcast use vstd::seq_lib::group_to_multiset_ensures;
    broadcast use vstd::multiset::group_multiset_axioms;
    if k2 == k {
        if m.contains_key(k) {
            assert(map_append(m, k, x)[k].to_multiset() =~= m[k].to_multiset().insert(x));
        } else {
            assert(seq![x] == Seq::<T>::empty().push(x));
            assert(Seq::<T>::empty().to_multiset() =~= vstd::multiset::Multiset::<T>::empty());
        }
    }
}

/// Recording an edge label between two vertex labels keeps the connection maps counting alike.
proof fn lemma_add_connection_counted(m: PatternMetaView, id: i32, s: i32, e: i32)
    requires
        connections_counted(m),
    ensures
        connections_counted(add_connection(m, id, s, e)),
{
    let m2 = add_connection(m, id, s, e);
    let vce1 = map_append(m.vertex_connect_edges, s, (id, Direction::Out));
    let vve1 = map_append(m.vertex_vertex_edges, (s, e), (id, Direction::Out));
    assert forall|id2: i32, s2: i32, e2: i32|
        listed_count(m2.vertex_vertex_edges, (s2, e2), (id2, Direction::Out)) == listed_count(m2.edge_connect_vertices, id2, (s2, e2))
            && listed_count(m2.vertex_vertex_edges, (e2, s2), (id2, Direction::Incoming)) == listed_count(m2.edge_connect_vertices, id2, (s2, e2)) by {
        lemma_listed_count_append(m.edge_connect_vertices, id, (s, e), id2, (s2, e2));
        lemma_listed_count_append(vve1, (e, s), (id, Direction::Incoming), (s2, e2), (id2, Direction::Out));
        lemma_listed_count_append(m.vertex_vertex_edges, (s, e), (id, Direction::Out), (s2, e2), (id2, Direction::Out));
        lemma_listed_count_append(vve1, (e, s), (id, Direction::Incoming), (e2, s2), (id2, Direction::Incoming));
        lemma_listed_count_append(m.vertex_vertex_edges, (s, e), (id, Direction::Out), (e2, s2), (id2, Direction::Incoming));
    }
    assert forall|v: i32, id2: i32|
        listed_count(m2.vertex_connect_edges, v, (id2, Direction::Out)) == pairs_from(recorded_pairs(m2, id2), v)
            && listed_count(m2.vertex_connect_edges, v, (id2, Direction::Incoming)) == pairs_to(recorded_pairs(m2, id2), v) by {
        lemma_listed_count_append(vce1, e, (id, Direction::Incoming), v, (id2, Direction::Out));
        lemma_listed_count_append(m.vertex_connect_edges, s, (id, Direction::Out), v, (id2, Direction::Out));
        lemma_listed_count_append(vce1, e, (id, Direction::Incoming), v, (id2, Direction::Incoming));
        lemma_listed_count_append(m.vertex_connect_edges, s, (id, Direction::Out), v, (id2, Direction::Incoming));
        if id2 == id {
            let ps = recorded_pairs(m, id);
            assert(recorded_pairs(m2, id) == ps.push((s, e)));
            assert(ps.push((s, e)).drop_last() == ps);
        } else {
            assert(recorded_pairs(m2, id2) == recorded_pairs(m, id2));
        }
    }
}

/// Registering tables one after the other keeps the connection maps counting alike.
pub proof fn lemma_register_tables_counted(sch: SchemaView, entries: Seq<(String, i32)>)
    ensures
        connections_counted(register_tables(sch, entries)),
    decreases entries.len(),
{
    if entries.len() > 0 {
        lemma_register_tables_counted(sch, entries.drop_last());
        let m = register_tables(sch, entries.drop_last());
        let entry = entries.last();
        match lookup_name(sch.rel_entity_labels, entry.0@) {
            Some(ends) => {
                let s = lookup_name(sch.table_map, ends.0@)->0;
                let e = lookup_name(sch.table_map, ends.1@)->0;
                let m1 = PatternMetaView { edge_map: insert_name(m.edge_map, entry.0, entry.1), ..m };
                assert(connections_counted(m1)) by {
                    assert forall|id: i32| recorded_pairs(m1, id) == recorded_pairs(m, id) by {}
                }
                lemma_add_connection_counted(m1, entry.1, s, e);
                assert(register_tables(sch, entries) == add_connection(m1, entry.1, s, e));
            },
            None => {
                let m1 = register_tables(sch, entries);
                assert(m1.vertex_connect_edges == m.vertex_connect_edges);
                assert(m1.edge_connect_vertices == m.edge_connect_vertices);
                assert(m1.vertex_vertex_edges == m.vertex_vertex_edges);
                assert forall|id: i32| recorded_pairs(m1, id) == recorded_pairs(m, id) by {}
            },
        }
    } else {
        let m = register_tables(sch, entries);
        assert forall|id: i32| recorded_pairs(m, id) == Seq::<(i32, i32)>::empty() by {}
    }
}

/// In the pattern meta of a schema, the pair `(s, e)` lists edge label `id` going out exactly
/// as many times as the pair `(e, s)` lists it coming in; and vertex label `v` lists `id`
/// going out (coming in) as many times as `id` records a pair of vertex labels that starts
/// (ends) at `v`, each such pair `(v, u)` counting once in the list of edges between `v`
/// and `u`.
pub proof fn lemma_edges_between_counts(sch: SchemaView, id: i32, s: i32, e: i32, v: i32)
    ensures
        listed_count(register_tables(sch, sch.table_map).vertex_vertex_edges, (s, e), (id, Direction::Out))
            == listed_count(register_tables(sch, sch.table_map).vertex_vertex_edges, (e, s), (id, Direction::Incoming)),
        listed_count(register_tables(sch, sch.table_map).vertex_vertex_edges, (s, e), (id, Direction::Out))
            == listed_count(register_tables(sch, sch.table_map).edge_connect_vertices, id, (s, e)),
        listed_count(register_tables(sch, sch.table_map).vertex_connect_edges, v, (id, Direction::Out)) == pairs_from(
            recorded_pairs(register_tables(sch, sch.table_map), id),
            v,
        ),
        listed_count(register_tables(sch, sch.table_map).vertex_connect_edges, v, (id, Direction::Incoming)) == pairs_to(
            recorded_pairs(register_tables(sch, sch.table_map), id),
            v,
        ),
{
    lemma_register_tables_counted(sch, sch.table_map);
    let m = register_tables(sch, sch.table_map);
    assert(listed_count(m.vertex_vertex_edges, (s, e), (id, Direction::Out)) == listed_count(m.edge_connect_vertices, id, (s, e)));
    assert(listed_count(m.vertex_connect_edges, v, (id, Direction::Out)) == pairs_from(recorded_pairs(m, id), v));
}

} // verus!
