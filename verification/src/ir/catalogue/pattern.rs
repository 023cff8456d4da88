//! Patterns: small graphs of labelled vertices and edges.
use std::collections::{BTreeMap, BTreeSet};
use vstd::prelude::*;
use vstd::multiset::Multiset;

use crate::ir::IrError;
use crate::ir::catalogue::collections::{lemma_i32_keys_ordered, lemma_sorted_ints_exists, lemma_sorted_ints_is, lemma_sorted_pairs_exists, map_get_mut, map_keys, set_items, sorted_ints, sorted_pairs, strictly_increasing};
use crate::catalogue::pattern::Direction;
use crate::catalogue::pattern_meta::{vertex_ids_by_name, PatternMeta, PatternMetaView};
use crate::ir::catalogue::extend_step::{as_ints, bfs_combinations, edges_in_groups, extend_edges_num, group_by_start, groups_of, index_combinations, is_combination, lemma_bfs_combinations, ExtendEdge, ExtendStep, ExtendStepView};
use crate::ir::catalogue::{PatternDirection, PatternId, PatternLabelId, PatternRankId};

verus! {

/// What a pattern vertex holds, as mathematical values.
pub struct PatternVertexView {
    pub id: PatternId,
    pub label: PatternLabelId,
    pub rank: PatternRankId,
    /// Key: edge id, Value: (vertex id, direction)
    pub connect_edges: Map<PatternId, (PatternId, PatternDirection)>,
    /// Key: vertex id, Value: (edge id, direction) of each edge to that vertex
    pub connect_vertices: Map<PatternId, Seq<(PatternId, PatternDirection)>>,
    pub out_degree: nat,
    pub in_degree: nat,
}

#[derive(Debug, Clone)]
pub struct PatternVertex {
    id: PatternId,
    label: PatternLabelId,
    /// Used to identify vertices with the same label
    rank: PatternRankId,
    /// Key: edge id, Value: (vertex id, direction)
    connect_edges: BTreeMap<PatternId, (PatternId, PatternDirection)>,
    /// Key: vertex id, Value: Vec<(edge id, direction)>
    connect_vertices: BTreeMap<PatternId, Vec<(PatternId, PatternDirection)>>,
    /// How many out edges connected to this vertex
    out_degree: usize,
    /// How many in edges connected to this vertex
    in_degree: usize,
}

pub open spec fn connect_vertices_view(m: Map<PatternId, Vec<(PatternId, PatternDirection)>>) -> Map<PatternId, Seq<(PatternId, PatternDirection)>> {
    m.map_values(|v: Vec<(PatternId, PatternDirection)>| v@)
}

impl View for PatternVertex {
    type V = PatternVertexView;

    closed spec fn view(&self) -> PatternVertexView {
        PatternVertexView {
            id: self.id,
            label: self.label,
            rank: self.rank,
            connect_edges: self.connect_edges@,
            connect_vertices: connect_vertices_view(self.connect_vertices@),
            out_degree: self.out_degree as nat,
            in_degree: self.in_degree as nat,
        }
    }
}

/// A vertex with no connections.
pub open spec fn isolated_vertex(id: PatternId, label: PatternLabelId) -> PatternVertexView {
    PatternVertexView {
        id,
        label,
        rank: 0,
        connect_edges: Map::empty(),
        connect_vertices: Map::empty(),
        out_degree: 0,
        in_degree: 0,
    }
}

/// The vertex after recording an edge `edge_id` to `other` in direction `dir`.
pub open spec fn connect_to(v: PatternVertexView, edge_id: PatternId, other: PatternId, dir: PatternDirection) -> PatternVertexView {
    let old_edges = if v.connect_vertices.contains_key(other) {
        v.connect_vertices[other]
    } else {
        Seq::empty()
    };
    PatternVertexView {
        connect_edges: v.connect_edges.insert(edge_id, (other, dir)),
        connect_vertices: v.connect_vertices.insert(other, old_edges.push((edge_id, dir))),
        out_degree: if dir == PatternDirection::Out { v.out_degree + 1 } else { v.out_degree },
        in_degree: if dir == PatternDirection::In { v.in_degree + 1 } else { v.in_degree },
        ..v
    }
}

/// Methods to access the fields of a PatternVertex
impl PatternVertex {
    pub fn get_id(&self) -> (id: PatternId)
        ensures
            id == self@.id,
    {
        self.id
    }

    pub fn get_label(&self) -> (label: PatternLabelId)
        ensures
            label == self@.label,
    {
        self.label
    }

    pub fn get_rank(&self) -> (rank: PatternRankId)
        ensures
            rank == self@.rank,
    {
        self.rank
    }

    pub fn get_connected_edges(&self) -> (edges: &BTreeMap<PatternId, (PatternId, PatternDirection)>)
        ensures
            edges@ == self@.connect_edges,
    {
        &self.connect_edges
    }

    pub fn get_connected_vertices(&self) -> (vertices: &BTreeMap<PatternId, Vec<(PatternId, PatternDirection)>>)
        ensures
            connect_vertices_view(vertices@) == self@.connect_vertices,
    {
        &self.connect_vertices
    }

    pub fn get_out_degree(&self) -> (degree: usize)
        ensures
            degree == self@.out_degree,
    {
        self.out_degree
    }

    pub fn get_in_degree(&self) -> (degree: usize)
        ensures
            degree == self@.in_degree,
    {
        self.in_degree
    }

    /// Get how many connections (both out and in) the current pattern vertex has
    pub fn get_connect_num(&self) -> (num: usize)
        ensures
            num == self@.connect_edges.dom().len(),
    {
        broadcast use vstd::std_specs::btree::group_btree_axioms;
        self.connect_edges.len()
    }

    /// Given an edge id, get the vertex connected to the current vertex through the edge, with the direction
    pub fn get_connect_vertex_by_edge_id(&self, edge_id: PatternId) -> (r: Option<(PatternId, PatternDirection)>)
        ensures
            r == (if self@.connect_edges.contains_key(edge_id) {
                Some(self@.connect_edges[edge_id])
            } else {
                None
            }),
    {
        broadcast use vstd::std_specs::btree::group_btree_axioms;
        proof {
            lemma_i32_keys_ordered();
        }
        match self.connect_edges.get(&edge_id) {
            Some(connection) => Some(*connection),
            None => None,
        }
    }

    /// Given a vertex id, get all the edges connecting the given vertex and the current vertex, with the direction
    pub fn get_connect_edges_by_vertex_id(&self, vertex_id: PatternId) -> (r: Vec<(PatternId, PatternDirection)>)
        ensures
            r@ == (if self@.connect_vertices.contains_key(vertex_id) {
                self@.connect_vertices[vertex_id]
            } else {
                Seq::empty()
            }),
    {
        broadcast use vstd::std_specs::btree::group_btree_axioms;
        proof {
            lemma_i32_keys_ordered();
        }
        match self.connect_vertices.get(&vertex_id) {
            Some(connect_edges) => copy_connections(connect_edges),
            None => Vec::new(),
        }
    }

    /// Setters
    pub fn set_rank(&mut self, rank: PatternRankId)
        ensures
            final(self)@ == (PatternVertexView { rank, ..old(self)@ }),
    {
        self.rank = rank;
    }
}

/// A copy of a list of connections.
fn copy_connections(v: &Vec<(PatternId, PatternDirection)>) -> (r: Vec<(PatternId, PatternDirection)>)
    ensures
        r@ == v@,
{
    let mut r: Vec<(PatternId, PatternDirection)> = Vec::new();
    for i in 0..v.len()
        invariant
            r@ == v@.take(i as int),
    {
        r.push(v[i]);
        proof {
            assert(v@.take(i + 1) == v@.take(i as int).push(v@[i as int]));
        }
    }
    proof {
        assert(v@.take(v@.len() as int) == v@);
    }
    r
}

#[derive(Debug, Clone, Copy)]
pub struct PatternEdge {
    pub id: PatternId,
    pub label: PatternLabelId,
    pub start_v_id: PatternId,
    pub end_v_id: PatternId,
    pub start_v_label: PatternLabelId,
    pub end_v_label: PatternLabelId,
}

/// Initializers of PatternEdge
impl PatternEdge {
    pub fn new(
        id: PatternId,
        label: PatternLabelId,
        start_v_id: PatternId,
        end_v_id: PatternId,
        start_v_label: PatternLabelId,
        end_v_label: PatternLabelId,
    ) -> (edge: PatternEdge)
        ensures
            edge == (PatternEdge { id, label, start_v_id, end_v_id, start_v_label, end_v_label }),
    {
        PatternEdge { id, label, start_v_id, end_v_id, start_v_label, end_v_label }
    }
}

/// Methods to access the fields of a PatternEdge
impl PatternEdge {
    pub fn get_id(&self) -> (id: PatternId)
        ensures
            id == self.id,
    {
        self.id
    }

    pub fn get_label(&self) -> (label: PatternLabelId)
        ensures
            label == self.label,
    {
        self.label
    }

    pub fn get_start_vertex_id(&self) -> (id: PatternId)
        ensures
            id == self.start_v_id,
    {
        self.start_v_id
    }

    pub fn get_end_vertex_id(&self) -> (id: PatternId)
        ensures
            id == self.end_v_id,
    {
        self.end_v_id
    }

    pub fn get_start_vertex_label(&self) -> (label: PatternLabelId)
        ensures
            label == self.start_v_label,
    {
        self.start_v_label
    }

    pub fn get_end_vertex_label(&self) -> (label: PatternLabelId)
        ensures
            label == self.end_v_label,
    {
        self.end_v_label
    }
}

/// What a pattern holds, as mathematical values.
pub struct PatternView {
    pub edges: Map<PatternId, PatternEdge>,
    pub vertices: Map<PatternId, PatternVertexView>,
    pub edge_label_map: Map<PatternLabelId, Set<PatternId>>,
    pub vertex_label_map: Map<PatternLabelId, Set<PatternId>>,
}

#[derive(Debug, Clone)]
pub struct Pattern {
    /// Key: edge id, Value: struct PatternEdge
    edges: BTreeMap<PatternId, PatternEdge>,
    /// Key: vertex id, Value: struct PatternVertex
    vertices: BTreeMap<PatternId, PatternVertex>,
    /// Key: edge label id, Value: BTreeSet<edge id>
    edge_label_map: BTreeMap<PatternLabelId, BTreeSet<PatternId>>,
    /// Key: vertex label id, Value: BTreeSet<vertex id>
    vertex_label_map: BTreeMap<PatternLabelId, BTreeSet<PatternId>>,
}

pub open spec fn vertices_view(m: Map<PatternId, PatternVertex>) -> Map<PatternId, PatternVertexView> {
    m.map_values(|v: PatternVertex| v@)
}

pub open spec fn label_map_view(m: Map<PatternLabelId, BTreeSet<PatternId>>) -> Map<PatternLabelId, Set<PatternId>> {
    m.map_values(|s: BTreeSet<PatternId>| s@)
}

impl View for Pattern {
    type V = PatternView;

    closed spec fn view(&self) -> PatternView {
        PatternView {
            edges: self.edges@,
            vertices: vertices_view(self.vertices@),
            edge_label_map: label_map_view(self.edge_label_map@),
            vertex_label_map: label_map_view(self.vertex_label_map@),
        }
    }
}

/// The label map after recording `id` under `label`.
pub open spec fn label_set_insert(m: Map<PatternLabelId, Set<PatternId>>, label: PatternLabelId, id: PatternId) -> Map<PatternLabelId, Set<PatternId>> {
    m.insert(
        label,
        if m.contains_key(label) {
            m[label].insert(id)
        } else {
            set![id]
        },
    )
}

/// A pattern without vertices or edges.
pub open spec fn empty_pattern() -> PatternView {
    PatternView {
        edges: Map::empty(),
        vertices: Map::empty(),
        edge_label_map: Map::empty(),
        vertex_label_map: Map::empty(),
    }
}

/// The pattern after recording, at vertex `v_id` (labelled `v_label` should it be new),
/// the edge `edge_id` to `other` in direction `dir`.
pub open spec fn add_endpoint(
    p: PatternView,
    v_id: PatternId,
    v_label: PatternLabelId,
    edge_id: PatternId,
    other: PatternId,
    dir: PatternDirection,
) -> PatternView {
    if p.vertices.contains_key(v_id) {
        PatternView {
            vertices: p.vertices.insert(v_id, connect_to(p.vertices[v_id], edge_id, other, dir)),
            ..p
        }
    } else {
        PatternView {
            vertices: p.vertices.insert(v_id, connect_to(isolated_vertex(v_id, v_label), edge_id, other, dir)),
            vertex_label_map: label_set_insert(p.vertex_label_map, v_label, v_id),
            ..p
        }
    }
}

/// The pattern after adding edge `e`: the edge goes in by its id, and its start and end
/// vertices record it, the start vertex as an out edge and the end vertex as an in edge.
pub open spec fn add_edge(p: PatternView, e: PatternEdge) -> PatternView {
    let p1 = PatternView {
        edges: p.edges.insert(e.id, e),
        edge_label_map: label_set_insert(p.edge_label_map, e.label, e.id),
        ..p
    };
    let p2 = add_endpoint(p1, e.start_v_id, e.start_v_label, e.id, e.end_v_id, PatternDirection::Out);
    add_endpoint(p2, e.end_v_id, e.end_v_label, e.id, e.start_v_id, PatternDirection::In)
}

/// The pattern that adding the edges one after the other to the empty pattern builds.
pub open spec fn pattern_of_edges(edges: Seq<PatternEdge>) -> PatternView
    decreases edges.len(),
{
    if edges.len() == 0 {
        empty_pattern()
    } else {
        add_edge(pattern_of_edges(edges.drop_last()), edges.last())
    }
}

/// The pattern made of one vertex.
pub open spec fn single_vertex_pattern(v: PatternVertexView) -> PatternView {
    PatternView {
        edges: Map::empty(),
        vertices: map![v.id => v],
        edge_label_map: Map::empty(),
        vertex_label_map: map![v.label => set![v.id]],
    }
}

/// The degrees of every vertex are at most `n`.
pub open spec fn degrees_at_most(p: PatternView, n: nat) -> bool {
    forall|v: PatternId| #[trigger] p.vertices.contains_key(v) ==> p.vertices[v].out_degree <= n && p.vertices[v].in_degree <= n
}

/// Records `id` under `label` in a label map.
fn insert_label_member(m: &mut BTreeMap<PatternLabelId, BTreeSet<PatternId>>, label: PatternLabelId, id: PatternId)
    ensures
        label_map_view(final(m)@) == label_set_insert(label_map_view(old(m)@), label, id),
{
    broadcast use vstd::std_specs::btree::group_btree_axioms;
    proof {
        lemma_i32_keys_ordered();
    }
    let ghost old_view = label_map_view(m@);
    match map_get_mut(m, label) {
        Some(set) => {
            set.insert(id);
        },
        None => {
            let mut set = BTreeSet::new();
            set.insert(id);
            m.insert(label, set);
        },
    }
    assert(label_map_view(m@) =~= label_set_insert(old_view, label, id));
}

impl PatternVertex {
    /// A vertex with no connections.
    fn isolated(id: PatternId, label: PatternLabelId) -> (v: PatternVertex)
        ensures
            v@ == isolated_vertex(id, label),
    {
        let v = PatternVertex {
            id,
            label,
            rank: 0,
            connect_edges: BTreeMap::new(),
            connect_vertices: BTreeMap::new(),
            out_degree: 0,
            in_degree: 0,
        };
        assert(v@.connect_vertices =~= Map::empty());
        v
    }

    /// Records the edge `edge_id` to `other` in direction `dir`.
    fn connect(&mut self, edge_id: PatternId, other: PatternId, dir: PatternDirection)
        requires
            dir == PatternDirection::Out ==> old(self)@.out_degree < usize::MAX,
            dir == PatternDirection::In ==> old(self)@.in_degree < usize::MAX,
        ensures
            final(self)@ == connect_to(old(self)@, edge_id, other, dir),
    {
        broadcast use vstd::std_specs::btree::group_btree_axioms;
        proof {
            lemma_i32_keys_ordered();
        }
        let ghost old_view = self@;
        self.connect_edges.insert(edge_id, (other, dir));
        match map_get_mut(&mut self.connect_vertices, other) {
            Some(edges) => {
                edges.push((edge_id, dir));
            },
            None => {
                let mut edges = Vec::new();
                edges.push((edge_id, dir));
                self.connect_vertices.insert(other, edges);
            },
        }
        match dir {
            PatternDirection::Out => {
                self.out_degree = self.out_degree + 1;
            },
            PatternDirection::In => {
                self.in_degree = self.in_degree + 1;
            },
        }
        assert(self@.connect_vertices =~= connect_to(old_view, edge_id, other, dir).connect_vertices);
    }
}

impl Pattern {
    /// Records, at vertex `v_id` (added with label `v_label` should it be new), the edge
    /// `edge_id` to `other` in direction `dir`.
    fn add_endpoint(&mut self, v_id: PatternId, v_label: PatternLabelId, edge_id: PatternId, other: PatternId, dir: PatternDirection)
        requires
            old(self)@.vertices.contains_key(v_id) && dir == PatternDirection::Out ==> old(self)@.vertices[v_id].out_degree < usize::MAX,
            old(self)@.vertices.contains_key(v_id) && dir == PatternDirection::In ==> old(self)@.vertices[v_id].in_degree < usize::MAX,
        ensures
            final(self)@ == add_endpoint(old(self)@, v_id, v_label, edge_id, other, dir),
    {
        broadcast use vstd::std_specs::btree::group_btree_axioms;
        proof {
            lemma_i32_keys_ordered();
        }
        let ghost old_view = self@;
        match map_get_mut(&mut self.vertices, v_id) {
            Some(vertex) => {
                vertex.connect(edge_id, other, dir);
            },
            None => {
                let mut vertex = PatternVertex::isolated(v_id, v_label);
                vertex.connect(edge_id, other, dir);
                self.vertices.insert(v_id, vertex);
                insert_label_member(&mut self.vertex_label_map, v_label, v_id);
            },
        }
        assert(self@.vertices =~= add_endpoint(old_view, v_id, v_label, edge_id, other, dir).vertices);
    }

    /// Adds an edge: the edge goes in by its id, and its end vertices record it.
    fn add_edge(&mut self, edge: PatternEdge)
        requires
            degrees_at_most(old(self)@, (usize::MAX - 1) as nat),
        ensures
            final(self)@ == add_edge(old(self)@, edge),
    {
        broadcast use vstd::std_specs::btree::group_btree_axioms;
        proof {
            lemma_i32_keys_ordered();
        }
        let ghost old_view = self@;
        self.edges.insert(edge.id, edge);
        insert_label_member(&mut self.edge_label_map, edge.label, edge.id);
        assert(self@.vertices == old_view.vertices);
        assert(self@.vertices.contains_key(edge.start_v_id) ==> old_view.vertices.contains_key(edge.start_v_id));
        self.add_endpoint(edge.start_v_id, edge.start_v_label, edge.id, edge.end_v_id, PatternDirection::Out);
        assert(self@.vertices.contains_key(edge.end_v_id) && old_view.vertices.contains_key(edge.end_v_id)
            ==> self@.vertices[edge.end_v_id].in_degree == old_view.vertices[edge.end_v_id].in_degree);
        self.add_endpoint(edge.end_v_id, edge.end_v_label, edge.id, edge.start_v_id, PatternDirection::In);
    }
}

} // verus!

verus! {

impl PatternView {
    /// The well-formedness that every pattern built by this module has: edges are kept under
    /// their ids and connect vertices of the pattern; the vertices are ready for ranking (see
    /// `ranking_ready`); the edge label map holds edges only.
    pub open spec fn wf(self) -> bool {
        &&& forall|e: PatternId| #[trigger] self.edges.contains_key(e) ==> {
            &&& self.edges[e].id == e
            &&& self.vertices.contains_key(self.edges[e].start_v_id)
            &&& self.vertices.contains_key(self.edges[e].end_v_id)
        }
        &&& ranking_ready(self)
        &&& forall|l: PatternLabelId, e: PatternId| #[trigger] self.edge_label_map.contains_key(l) && #[trigger] self.edge_label_map[l].contains(e) ==> self.edges.contains_key(e)
    }
}

/// What ranking needs of a pattern: vertices are kept under their ids and their connections
/// lead to edges and vertices of the pattern; every vertex sits in the label map under its
/// label and nothing else does; no label lists an empty set.
pub open spec fn ranking_ready(p: PatternView) -> bool {
    &&& forall|v: PatternId| #[trigger] p.vertices.contains_key(v) ==> {
        &&& p.vertices[v].id == v
        &&& p.vertex_label_map.contains_key(p.vertices[v].label)
        &&& p.vertex_label_map[p.vertices[v].label].contains(v)
    }
    &&& forall|v: PatternId, e: PatternId| #[trigger] p.vertices.contains_key(v) && #[trigger] p.vertices[v].connect_edges.contains_key(e) ==> {
        &&& p.edges.contains_key(e)
        &&& p.vertices.contains_key(p.vertices[v].connect_edges[e].0)
    }
    &&& forall|l: PatternLabelId, v: PatternId| #[trigger] p.vertex_label_map.contains_key(l) && #[trigger] p.vertex_label_map[l].contains(v) ==> {
        &&& p.vertices.contains_key(v)
        &&& p.vertices[v].label == l
    }
    &&& forall|l: PatternLabelId| #[trigger] p.vertex_label_map.contains_key(l) ==> p.vertex_label_map[l] != Set::<PatternId>::empty()
}

/// Adding an edge keeps a pattern well-formed and raises each degree by at most one.
pub proof fn lemma_add_edge_wf(p: PatternView, e: PatternEdge, n: nat)
    requires
        p.wf(),
        degrees_at_most(p, n),
    ensures
        add_edge(p, e).wf(),
        degrees_at_most(add_edge(p, e), n + 1),
{
    let p1 = PatternView {
        edges: p.edges.insert(e.id, e),
        edge_label_map: label_set_insert(p.edge_label_map, e.label, e.id),
        ..p
    };
    let p2 = add_endpoint(p1, e.start_v_id, e.start_v_label, e.id, e.end_v_id, PatternDirection::Out);
    let p3 = add_endpoint(p2, e.end_v_id, e.end_v_label, e.id, e.start_v_id, PatternDirection::In);
    assert(p3 == add_edge(p, e));
    assert forall|v: PatternId| #[trigger] p3.vertices.contains_key(v) implies p3.vertices[v].out_degree <= n + 1 && p3.vertices[v].in_degree <= n + 1 by {
        if v == e.start_v_id || v == e.end_v_id {
        } else {
            assert(p.vertices.contains_key(v));
        }
    }
    assert forall|v: PatternId, x: PatternId| #[trigger] p3.vertices.contains_key(v) && #[trigger] p3.vertices[v].connect_edges.contains_key(x) implies {
            &&& p3.edges.contains_key(x)
            &&& p3.vertices.contains_key(p3.vertices[v].connect_edges[x].0)
        } by {
        if v == e.end_v_id {
        } else if v == e.start_v_id {
        } else {
            assert(p.vertices.contains_key(v));
        }
    }
    assert forall|l: PatternLabelId, v: PatternId| #[trigger] p3.vertex_label_map.contains_key(l) && #[trigger] p3.vertex_label_map[l].contains(v) implies {
            &&& p3.vertices.contains_key(v)
            &&& p3.vertices[v].label == l
        } by {
        if v == e.end_v_id && !p2.vertices.contains_key(e.end_v_id) {
        } else if v == e.start_v_id && !p1.vertices.contains_key(e.start_v_id) {
        } else {
            if p2.vertex_label_map.contains_key(l) && p2.vertex_label_map[l].contains(v) {
                if p1.vertex_label_map.contains_key(l) && p1.vertex_label_map[l].contains(v) {
                    assert(p.vertex_label_map.contains_key(l) && p.vertex_label_map[l].contains(v));
                }
            }
        }
    }
    assert forall|v: PatternId| #[trigger] p3.vertices.contains_key(v) implies {
            &&& p3.vertices[v].id == v
            &&& p3.vertex_label_map.contains_key(p3.vertices[v].label)
            &&& p3.vertex_label_map[p3.vertices[v].label].contains(v)
        } by {
        if v == e.end_v_id || v == e.start_v_id {
        } else {
            assert(p.vertices.contains_key(v));
        }
    }
    assert forall|l: PatternLabelId, x: PatternId| #[trigger] p3.edge_label_map.contains_key(l) && #[trigger] p3.edge_label_map[l].contains(x) implies p3.edges.contains_key(x) by {
        if x != e.id {
            assert(p.edge_label_map.contains_key(l) && p.edge_label_map[l].contains(x));
        }
    }
}

/// A pattern built from edges is well-formed.
pub proof fn lemma_pattern_of_edges_wf(edges: Seq<PatternEdge>)
    ensures
        pattern_of_edges(edges).wf(),
        degrees_at_most(pattern_of_edges(edges), edges.len()),
    decreases edges.len(),
{
    if edges.len() > 0 {
        lemma_pattern_of_edges_wf(edges.drop_last());
        lemma_add_edge_wf(pattern_of_edges(edges.drop_last()), edges.last(), edges.drop_last().len());
    }
}

/// Initializers of Pattern
/// Initialize a Pattern containing only one vertex from the vertex's id and label
impl From<(PatternId, PatternLabelId)> for Pattern {
    fn from(vertex: (PatternId, PatternLabelId)) -> (pattern: Pattern)
        ensures
            pattern@ == single_vertex_pattern(isolated_vertex(vertex.0, vertex.1)),
            pattern@.wf(),
    {
        let (vertex_id, vertex_label) = vertex;
        let vertex = PatternVertex::isolated(vertex_id, vertex_label);
        Pattern::from(vertex)
    }
}

impl vstd::std_specs::convert::FromSpecImpl<(PatternId, PatternLabelId)> for Pattern {
    open spec fn obeys_from_spec() -> bool {
        false
    }

    /// A pattern whose view is the single vertex; its inner layout is left open, so no call
    /// of `from` is promised to equal it.
    open spec fn from_spec(v: (PatternId, PatternLabelId)) -> Pattern {
        choose|p: Pattern| p@ == single_vertex_pattern(isolated_vertex(v.0, v.1))
    }
}

/// Initialize a Pattern from just a single Pattern Vertex
impl From<PatternVertex> for Pattern {
    fn from(vertex: PatternVertex) -> (pattern: Pattern)
        ensures
            pattern@ == single_vertex_pattern(vertex@),
            vertex@.connect_edges.is_empty() ==> pattern@.wf(),
    {
        broadcast use vstd::std_specs::btree::group_btree_axioms;
        proof {
            lemma_i32_keys_ordered();
        }
        let ghost v = vertex@;
        let id = vertex.id;
        let label = vertex.label;
        let mut vertices = BTreeMap::new();
        vertices.insert(id, vertex);
        let mut ids = BTreeSet::new();
        ids.insert(id);
        let mut vertex_label_map = BTreeMap::new();
        vertex_label_map.insert(label, ids);
        let pattern = Pattern {
            edges: BTreeMap::new(),
            vertices,
            edge_label_map: BTreeMap::new(),
            vertex_label_map,
        };
        assert(pattern@.vertices =~= map![v.id => v]);
        assert(pattern@.vertex_label_map =~= map![v.label => set![v.id]]);
        assert(pattern@.edge_label_map =~= Map::empty());
        assert(pattern@ == single_vertex_pattern(v));
        pattern
    }
}

impl vstd::std_specs::convert::FromSpecImpl<PatternVertex> for Pattern {
    open spec fn obeys_from_spec() -> bool {
        false
    }

    /// A pattern whose view is the single vertex; its inner layout is left open, so no call
    /// of `from` is promised to equal it.
    open spec fn from_spec(v: PatternVertex) -> Pattern {
        choose|p: Pattern| p@ == single_vertex_pattern(v@)
    }
}

/// Initialize a Pattern from a vector of Pattern Edges
impl TryFrom<Vec<PatternEdge>> for Pattern {
    type Error = IrError;

    fn try_from(edges: Vec<PatternEdge>) -> (result: Result<Pattern, IrError>)
        ensures
            match result {
                Ok(pattern) => edges@.len() > 0 && pattern@ == pattern_of_edges(edges@) && pattern@.wf(),
                Err(e) => edges@.len() == 0 && e == IrError::EmptyPattern,
            },
    {
        if edges.len() > 0 {
            Ok(Pattern::from_edges(edges))
        } else {
            Err(IrError::EmptyPattern)
        }
    }
}

impl Pattern {
    /// The pattern of a non-empty list of edges: each edge goes in by its id, and its start
    /// and end vertices record it. A pattern of a single vertex comes from `Pattern::from`
    /// with that vertex; there is no pattern of no edges.
    pub fn from_edges(edges: Vec<PatternEdge>) -> (pattern: Pattern)
        requires
            edges@.len() > 0,
        ensures
            pattern@ == pattern_of_edges(edges@),
            pattern@.wf(),
    {
        broadcast use vstd::std_specs::btree::group_btree_axioms;
        let mut new_pattern = Pattern {
            edges: BTreeMap::new(),
            vertices: BTreeMap::new(),
            edge_label_map: BTreeMap::new(),
            vertex_label_map: BTreeMap::new(),
        };
        assert(new_pattern@.vertices =~= Map::empty());
        assert(new_pattern@.edge_label_map =~= Map::empty());
        assert(new_pattern@.vertex_label_map =~= Map::empty());
        for i in 0..edges.len()
            invariant
                new_pattern@ == pattern_of_edges(edges@.take(i as int)),
                edges@.len() <= usize::MAX,
        {
            proof {
                lemma_pattern_of_edges_wf(edges@.take(i as int));
                assert(edges@.take(i + 1).drop_last() == edges@.take(i as int));
            }
            new_pattern.add_edge(edges[i]);
        }
        proof {
            assert(edges@.take(edges@.len() as int) == edges@);
            lemma_pattern_of_edges_wf(edges@);
        }
        new_pattern
    }
}

impl vstd::std_specs::convert::TryFromSpecImpl<Vec<PatternEdge>> for Pattern {
    open spec fn obeys_try_from_spec() -> bool {
        false
    }

    /// No pattern from no edges; otherwise a pattern whose view adds the edges one after the
    /// other. Its inner layout is left open, so no call of `try_from` is promised to equal it.
    open spec fn try_from_spec(v: Vec<PatternEdge>) -> Result<Pattern, IrError> {
        if v@.len() == 0 {
            Err(IrError::EmptyPattern)
        } else {
            Ok(choose|p: Pattern| p@ == pattern_of_edges(v@))
        }
    }
}

} // verus!

verus! {

/// Storing a vertex under a key stores its view under that key.
proof fn lemma_vertices_view_insert()
    ensures
        forall|m: Map<PatternId, PatternVertex>, k: PatternId, v: PatternVertex| #[trigger] vertices_view(m.insert(k, v)) == vertices_view(m).insert(k, v@),
{
    assert forall|m: Map<PatternId, PatternVertex>, k: PatternId, v: PatternVertex| #[trigger] vertices_view(m.insert(k, v)) == vertices_view(m).insert(k, v@) by {
        assert(vertices_view(m.insert(k, v)) =~= vertices_view(m).insert(k, v@));
    }
}

/// Every edge of the pattern has both its end vertices in the pattern.
pub open spec fn edges_have_ends(p: PatternView) -> bool {
    forall|e: PatternId| #[trigger] p.edges.contains_key(e) ==> {
        &&& p.vertices.contains_key(p.edges[e].start_v_id)
        &&& p.vertices.contains_key(p.edges[e].end_v_id)
    }
}

/// Methods to access the fields of a Pattern or get some info from Pattern
impl Pattern {
    /// Get Edges References
    pub fn get_edges(&self) -> (edges: &BTreeMap<PatternId, PatternEdge>)
        ensures
            edges@ == self@.edges,
    {
        &self.edges
    }

    /// Get Vertices References
    pub fn get_vertices(&self) -> (vertices: &BTreeMap<PatternId, PatternVertex>)
        ensures
            vertices_view(vertices@) == self@.vertices,
    {
        &self.vertices
    }

    /// Get Edge Label Map Reference
    pub fn get_edge_label_map(&self) -> (m: &BTreeMap<PatternLabelId, BTreeSet<PatternId>>)
        ensures
            label_map_view(m@) == self@.edge_label_map,
    {
        &self.edge_label_map
    }

    /// Get Vertex Label Map Reference
    pub fn get_vertex_label_map(&self) -> (m: &BTreeMap<PatternLabelId, BTreeSet<PatternId>>)
        ensures
            label_map_view(m@) == self@.vertex_label_map,
    {
        &self.vertex_label_map
    }

    /// Get PatternEdge Reference from Edge ID
    pub fn get_edge_from_id(&self, edge_id: PatternId) -> (edge: Option<&PatternEdge>)
        ensures
            match edge {
                Some(e) => self@.edges.contains_key(edge_id) && *e == self@.edges[edge_id],
                None => !self@.edges.contains_key(edge_id),
            },
    {
        broadcast use vstd::std_specs::btree::group_btree_axioms;
        proof {
            lemma_i32_keys_ordered();
        }
        self.edges.get(&edge_id)
    }

    /// Get PatternVertex Reference from Vertex ID
    pub fn get_vertex_from_id(&self, vertex_id: PatternId) -> (vertex: Option<&PatternVertex>)
        ensures
            match vertex {
                Some(v) => self@.vertices.contains_key(vertex_id) && v@ == self@.vertices[vertex_id],
                None => !self@.vertices.contains_key(vertex_id),
            },
    {
        broadcast use vstd::std_specs::btree::group_btree_axioms;
        proof {
            lemma_i32_keys_ordered();
        }
        self.vertices.get(&vertex_id)
    }

    pub fn get_edge_mut_from_id(&mut self, edge_id: PatternId) -> (edge: Option<&mut PatternEdge>)
        ensures
            match edge {
                Some(e) => {
                    &&& old(self)@.edges.contains_key(edge_id)
                    &&& *e == old(self)@.edges[edge_id]
                    &&& final(self)@ == (PatternView { edges: old(self)@.edges.insert(edge_id, *final(e)), ..old(self)@ })
                },
                None => !old(self)@.edges.contains_key(edge_id) && final(self)@ == old(self)@,
            },
    {
        map_get_mut(&mut self.edges, edge_id)
    }

    pub fn get_vertex_mut_from_id(&mut self, vertex_id: PatternId) -> (vertex: Option<&mut PatternVertex>)
        ensures
            match vertex {
                Some(v) => {
                    &&& old(self)@.vertices.contains_key(vertex_id)
                    &&& v@ == old(self)@.vertices[vertex_id]
                    &&& final(self)@ == (PatternView { vertices: old(self)@.vertices.insert(vertex_id, final(v)@), ..old(self)@ })
                },
                None => !old(self)@.vertices.contains_key(vertex_id) && final(self)@ == old(self)@,
            },
    {
        proof {
            lemma_vertices_view_insert();
        }
        map_get_mut(&mut self.vertices, vertex_id)
    }

    /// Get Vertex Index from Vertex ID Reference
    pub fn get_vertex_rank(&self, v_id: PatternId) -> (rank: PatternRankId)
        requires
            self@.vertices.contains_key(v_id),
        ensures
            rank == self@.vertices[v_id].rank,
    {
        match self.get_vertex_from_id(v_id) {
            Some(vertex) => vertex.rank,
            None => 0,
        }
    }

    /// [Public] Get the order of both start and end vertices of an edge
    pub fn get_edge_vertices_rank(&self, edge_id: PatternId) -> (ranks: Option<(PatternRankId, PatternRankId)>)
        requires
            self@.edges.contains_key(edge_id) ==> {
                &&& self@.vertices.contains_key(self@.edges[edge_id].start_v_id)
                &&& self@.vertices.contains_key(self@.edges[edge_id].end_v_id)
            },
        ensures
            ranks == (if self@.edges.contains_key(edge_id) {
                let e = self@.edges[edge_id];
                Some((self@.vertices[e.start_v_id].rank, self@.vertices[e.end_v_id].rank))
            } else {
                None
            }),
    {
        if let Some(edge) = self.get_edge_from_id(edge_id) {
            let start_v_rank = self.get_vertex_rank(edge.start_v_id);
            let end_v_rank = self.get_vertex_rank(edge.end_v_id);
            Some((start_v_rank, end_v_rank))
        } else {
            None
        }
    }

    /// Get the total number of edges in the pattern
    pub fn get_edge_num(&self) -> (num: usize)
        ensures
            num == self@.edges.dom().len(),
    {
        broadcast use vstd::std_specs::btree::group_btree_axioms;
        self.edges.len()
    }

    /// Get the total number of vertices in the pattern
    pub fn get_vertex_num(&self) -> (num: usize)
        ensures
            num == self@.vertices.dom().len(),
    {
        broadcast use vstd::std_specs::btree::group_btree_axioms;
        assert(self@.vertices.dom() =~= self.vertices@.dom());
        self.vertices.len()
    }

    /// Get the total number of edge labels in the pattern
    pub fn get_edge_label_num(&self) -> (num: usize)
        ensures
            num == self@.edge_label_map.dom().len(),
    {
        broadcast use vstd::std_specs::btree::group_btree_axioms;
        assert(self@.edge_label_map.dom() =~= self.edge_label_map@.dom());
        self.edge_label_map.len()
    }

    /// Get the total number of vertex labels in the pattern
    pub fn get_vertex_label_num(&self) -> (num: usize)
        ensures
            num == self@.vertex_label_map.dom().len(),
    {
        broadcast use vstd::std_specs::btree::group_btree_axioms;
        assert(self@.vertex_label_map.dom() =~= self.vertex_label_map@.dom());
        self.vertex_label_map.len()
    }

    /// Get the maximum edge label id of the current pattern
    pub fn get_max_edge_label(&self) -> (label: Option<PatternLabelId>)
        ensures
            match label {
                Some(l) => self@.edge_label_map.contains_key(l) && forall|k: PatternLabelId| #[trigger] self@.edge_label_map.contains_key(k) ==> k <= l,
                None => self@.edge_label_map.dom().len() == 0,
            },
    {
        let labels = map_keys(&self.edge_label_map);
        assert(self@.edge_label_map.dom() =~= self.edge_label_map@.dom());
        let label = max_of_increasing(&labels);
        assert forall|k: PatternLabelId| #[trigger] self@.edge_label_map.contains_key(k) implies labels@.contains(k) by {
            assert(self.edge_label_map@.contains_key(k));
        }
        label
    }

    /// Get the maximum vertex label id of the current pattern
    pub fn get_max_vertex_label(&self) -> (label: Option<PatternLabelId>)
        ensures
            match label {
                Some(l) => self@.vertex_label_map.contains_key(l) && forall|k: PatternLabelId| #[trigger] self@.vertex_label_map.contains_key(k) ==> k <= l,
                None => self@.vertex_label_map.dom().len() == 0,
            },
    {
        let labels = map_keys(&self.vertex_label_map);
        assert(self@.vertex_label_map.dom() =~= self.vertex_label_map@.dom());
        let label = max_of_increasing(&labels);
        assert forall|k: PatternLabelId| #[trigger] self@.vertex_label_map.contains_key(k) implies labels@.contains(k) by {
            assert(self.vertex_label_map@.contains_key(k));
        }
        label
    }
}

/// The last, and so the largest, of a strictly increasing list.
fn max_of_increasing(labels: &Vec<PatternLabelId>) -> (label: Option<PatternLabelId>)
    requires
        strictly_increasing(labels@),
    ensures
        match label {
            Some(l) => labels@.contains(l) && forall|x: PatternLabelId| #[trigger] labels@.contains(x) ==> x <= l,
            None => labels@.len() == 0,
        },
{
    if labels.len() == 0 {
        None
    } else {
        let l = labels[labels.len() - 1];
        assert(labels@[labels@.len() - 1] == l);
        assert forall|x: PatternLabelId| #[trigger] labels@.contains(x) implies x <= l by {
            let i = choose|i: int| 0 <= i < labels@.len() && labels@[i] == x;
            if i < labels@.len() - 1 {
                assert(labels@[i] < labels@[labels@.len() - 1]);
            }
        }
        Some(l)
    }
}

} // verus!

verus! {

/// The key by which the edges of a pattern are ordered: the labels of the start and end
/// vertices, the edge label, and the ranks of the start and end vertices.
pub open spec fn edge_order_key(p: PatternView, e: PatternEdge) -> (int, int, int, int, int) {
    (
        e.start_v_label as int,
        e.end_v_label as int,
        e.label as int,
        p.vertices[e.start_v_id].rank as int,
        p.vertices[e.end_v_id].rank as int,
    )
}

/// The lexicographic order of edge keys.
pub open spec fn key_lt(a: (int, int, int, int, int), b: (int, int, int, int, int)) -> bool {
    a.0 < b.0 || (a.0 == b.0 && (a.1 < b.1 || (a.1 == b.1 && (a.2 < b.2 || (a.2 == b.2 && (a.3 < b.3 || (a.3 == b.3
        && a.4 < b.4)))))))
}

/// Edge `a` comes before edge `b`: its key is smaller, or the keys are equal and its id is smaller.
pub open spec fn edge_precedes(p: PatternView, a: PatternId, b: PatternId) -> bool {
    let ka = edge_order_key(p, p.edges[a]);
    let kb = edge_order_key(p, p.edges[b]);
    key_lt(ka, kb) || (ka == kb && a < b)
}

/// `edge_precedes` is a strict total order on edge ids.
pub proof fn lemma_edge_precedes_order(p: PatternView)
    ensures
        forall|a: PatternId, b: PatternId, c: PatternId| #[trigger] edge_precedes(p, a, b) && #[trigger] edge_precedes(p, b, c) ==> edge_precedes(p, a, c),
        forall|a: PatternId, b: PatternId| a != b ==> #[trigger] edge_precedes(p, a, b) || edge_precedes(p, b, a),
        forall|a: PatternId| !#[trigger] edge_precedes(p, a, a),
{
}

/// Methods for PatternEdge Reordering inside a Pattern
impl Pattern {
    /// Get a vector of ordered edges's ids of a Pattern
    /// The comparison is based on the `cmp_edges` method below, edges of equal keys keep
    /// the order of their ids
    pub fn get_ordered_edges(&self) -> (ordered: Vec<PatternId>)
        requires
            edges_have_ends(self@),
        ensures
            ordered@.len() == self@.edges.dom().len(),
            forall|e: PatternId| self@.edges.contains_key(e) <==> #[trigger] ordered@.contains(e),
            forall|a: int, b: int| 0 <= a < b < ordered@.len() ==> edge_precedes(self@, ordered@[a], ordered@[b]),
    {
        let ids = map_keys(&self.edges);
        assert forall|k: int| 0 <= k < ids@.len() implies self@.edges.contains_key(#[trigger] ids@[k]) by {
            assert(ids@.contains(ids@[k]));
        }
        self.order_edge_ids(&ids)
    }

    /// The given edges, distinct and in increasing id order, ordered by `edge_precedes`.
    #[verifier::spinoff_prover]
    #[verifier::rlimit(30)]
    fn order_edge_ids(&self, ids: &Vec<PatternId>) -> (ordered: Vec<PatternId>)
        requires
            edges_have_ends(self@),
            strictly_increasing(ids@),
            forall|k: int| 0 <= k < ids@.len() ==> self@.edges.contains_key(#[trigger] ids@[k]),
        ensures
            ordered@.len() == ids@.len(),
            forall|e: PatternId| ids@.contains(e) <==> #[trigger] ordered@.contains(e),
            forall|a: int, b: int| 0 <= a < b < ordered@.len() ==> edge_precedes(self@, ordered@[a], ordered@[b]),
    {
        let mut ordered: Vec<PatternId> = Vec::new();
        for i in 0..ids.len()
            invariant
                strictly_increasing(ids@),
                forall|k: int| 0 <= k < ids@.len() ==> self@.edges.contains_key(#[trigger] ids@[k]),
                edges_have_ends(self@),
                ordered@.len() == i,
                forall|e: PatternId| #[trigger] ordered@.contains(e) <==> ids@.take(i as int).contains(e),
                forall|a: int, b: int| 0 <= a < b < ordered@.len() ==> edge_precedes(self@, ordered@[a], ordered@[b]),
        {
            let id = ids[i];
            assert(ids@.contains(id));
            assert(!ids@.take(i as int).contains(id)) by {
                if ids@.take(i as int).contains(id) {
                    let k = choose|k: int| 0 <= k < i && ids@.take(i as int)[k] == id;
                    assert(ids@[k] < ids@[i as int]);
                }
            }
            assert forall|k: int| 0 <= k < ordered@.len() implies self@.edges.contains_key(#[trigger] ordered@[k]) by {
                assert(ordered@.contains(ordered@[k]));
                let m = choose|m: int| 0 <= m < i && ids@.take(i as int)[m] == ordered@[k];
                assert(ids@[m] == ordered@[k]);
            }
            let j = self.insert_position(&ordered, id);
            let ghost before = ordered@;
            ordered.insert(j, id);
            proof {
                lemma_edge_precedes_order(self@);
                before.insert_ensures(j as int, id);
                assert forall|a: int, b: int| 0 <= a < b < ordered@.len() implies edge_precedes(self@, ordered@[a], ordered@[b]) by {
                    if b < j {
                    } else if b == j {
                    } else if a < j {
                        assert(ordered@[b] == before[b - 1]);
                    } else if a == j {
                        assert(ordered@[b] == before[b - 1]);
                    } else {
                        assert(ordered@[a] == before[a - 1]);
                        assert(ordered@[b] == before[b - 1]);
                    }
                }
                assert(ids@.take(i + 1) == ids@.take(i as int).push(id));
                assert forall|e: PatternId| #[trigger] ordered@.contains(e) <==> ids@.take(i + 1).contains(e) by {
                    if ordered@.contains(e) && e != id {
                        let k = choose|k: int| 0 <= k < ordered@.len() && ordered@[k] == e;
                        if k < j {
                            assert(before.contains(before[k]));
                        } else if k > j {
                            assert(before.contains(before[k - 1]));
                        }
                        assert(before.contains(e));
                        assert(ids@.take(i as int).contains(e));
                        let m = choose|m: int| 0 <= m < i && ids@.take(i as int)[m] == e;
                        assert(ids@.take(i + 1)[m] == e);
                    }
                    if e == id {
                        assert(ids@.take(i + 1)[i as int] == id);
                    }
                    if ids@.take(i + 1).contains(e) && e != id {
                        assert(ids@.take(i as int).contains(e));
                        assert(before.contains(e));
                        let k = choose|k: int| 0 <= k < before.len() && before[k] == e;
                        if k < j {
                            assert(ordered@[k] == e);
                        } else {
                            assert(ordered@[k + 1] == e);
                        }
                    }
                    if e == id {
                        assert(ordered@[j as int] == id);
                    }
                }
            }
        }
        proof {
            assert(ids@.take(ids@.len() as int) == ids@);
        }
        ordered
    }

    /// Where `id` goes in a list of edges ordered by `edge_precedes`.
    fn insert_position(&self, ordered: &Vec<PatternId>, id: PatternId) -> (j: usize)
        requires
            edges_have_ends(self@),
            self@.edges.contains_key(id),
            !ordered@.contains(id),
            forall|k: int| 0 <= k < ordered@.len() ==> self@.edges.contains_key(#[trigger] ordered@[k]),
            forall|a: int, b: int| 0 <= a < b < ordered@.len() ==> edge_precedes(self@, ordered@[a], ordered@[b]),
        ensures
            j <= ordered@.len(),
            forall|k: int| 0 <= k < j ==> edge_precedes(self@, #[trigger] ordered@[k], id),
            forall|k: int| j <= k < ordered@.len() ==> edge_precedes(self@, id, #[trigger] ordered@[k]),
    {
        proof {
            lemma_edge_precedes_order(self@);
        }
        let mut j: usize = 0;
        while j < ordered.len() && !self.edge_goes_before(id, ordered[j])
            invariant
                edges_have_ends(self@),
                self@.edges.contains_key(id),
                !ordered@.contains(id),
                forall|k: int| 0 <= k < ordered@.len() ==> self@.edges.contains_key(#[trigger] ordered@[k]),
                j <= ordered@.len(),
                forall|k: int| 0 <= k < j ==> edge_precedes(self@, #[trigger] ordered@[k], id),
            decreases ordered@.len() - j,
        {
            assert(ordered@[j as int] != id) by {
                assert(ordered@.contains(ordered@[j as int]));
            }
            j = j + 1;
        }
        proof {
            assert forall|k: int| j <= k < ordered@.len() implies edge_precedes(self@, id, #[trigger] ordered@[k]) by {
                if k > j {
                    assert(edge_precedes(self@, ordered@[j as int], ordered@[k]));
                }
            }
        }
        j
    }

    /// Whether edge `e1` goes before edge `e2`: by `cmp_edges`, and by id where their keys are equal.
    fn edge_goes_before(&self, e1_id: PatternId, e2_id: PatternId) -> (before: bool)
        requires
            edges_have_ends(self@),
            self@.edges.contains_key(e1_id),
            self@.edges.contains_key(e2_id),
        ensures
            before == edge_precedes(self@, e1_id, e2_id),
    {
        match self.cmp_edges(e1_id, e2_id) {
            std::cmp::Ordering::Less => true,
            std::cmp::Ordering::Greater => false,
            std::cmp::Ordering::Equal => e1_id < e2_id,
        }
    }

    /// Get the Order of two PatternEdges in a Pattern
    /// Vertex Indices are taken into consideration
    fn cmp_edges(&self, e1_id: PatternId, e2_id: PatternId) -> (order: std::cmp::Ordering)
        requires
            edges_have_ends(self@),
            self@.edges.contains_key(e1_id),
            self@.edges.contains_key(e2_id),
        ensures
            ({
                let k1 = edge_order_key(self@, self@.edges[e1_id]);
                let k2 = edge_order_key(self@, self@.edges[e2_id]);
                match order {
                    std::cmp::Ordering::Less => key_lt(k1, k2),
                    std::cmp::Ordering::Greater => key_lt(k2, k1),
                    std::cmp::Ordering::Equal => k1 == k2,
                }
            }),
    {
        if e1_id == e2_id {
            return std::cmp::Ordering::Equal;
        }
        let e1 = match self.get_edge_from_id(e1_id) {
            Some(e) => *e,
            None => return std::cmp::Ordering::Equal,
        };
        let e2 = match self.get_edge_from_id(e2_id) {
            Some(e) => *e,
            None => return std::cmp::Ordering::Equal,
        };
        // Compare the label of starting vertex
        if e1.start_v_label < e2.start_v_label {
            return std::cmp::Ordering::Less;
        } else if e1.start_v_label > e2.start_v_label {
            return std::cmp::Ordering::Greater;
        }
        // Compare the label of ending vertex
        if e1.end_v_label < e2.end_v_label {
            return std::cmp::Ordering::Less;
        } else if e1.end_v_label > e2.end_v_label {
            return std::cmp::Ordering::Greater;
        }
        // Compare Edge Label
        if e1.label < e2.label {
            return std::cmp::Ordering::Less;
        } else if e1.label > e2.label {
            return std::cmp::Ordering::Greater;
        }
        // Get orders for starting vertex
        let e1_start_v_rank = self.get_vertex_rank(e1.start_v_id);
        let e1_end_v_rank = self.get_vertex_rank(e1.end_v_id);
        let e2_start_v_rank = self.get_vertex_rank(e2.start_v_id);
        let e2_end_v_rank = self.get_vertex_rank(e2.end_v_id);
        // Compare the order of the starting vertex
        if e1_start_v_rank < e2_start_v_rank {
            return std::cmp::Ordering::Less;
        } else if e1_start_v_rank > e2_start_v_rank {
            return std::cmp::Ordering::Greater;
        }
        // Compare the order of ending vertex
        if e1_end_v_rank < e2_end_v_rank {
            return std::cmp::Ordering::Less;
        } else if e1_end_v_rank > e2_end_v_rank {
            return std::cmp::Ordering::Greater;
        }
        // Return as equal if still cannot distinguish
        std::cmp::Ordering::Equal
    }
}

} // verus!

verus! {

/// `k` is the smallest id from `n` on that `used` does not hold.
pub open spec fn is_next_free_id(used: Set<PatternId>, n: int, k: PatternId) -> bool {
    &&& n <= k
    &&& !used.contains(k)
    &&& forall|j: PatternId| n <= j < k ==> used.contains(j)
}

/// The smallest id from `n` on that `used` does not hold.
pub open spec fn next_free_id(used: Set<PatternId>, n: int) -> PatternId {
    choose|k: PatternId| is_next_free_id(used, n, k)
}

/// There is only one smallest free id.
pub proof fn lemma_next_free_id_unique(used: Set<PatternId>, n: int, k: PatternId)
    requires
        is_next_free_id(used, n, k),
    ensures
        next_free_id(used, n) == k,
{
    let c = next_free_id(used, n);
    assert(is_next_free_id(used, n, c));
    if c < k {
        assert(used.contains(c));
    } else if k < c {
        assert(used.contains(k));
    }
}

/// A finite set of `s` ids leaves one of the `s + 1` ids from `n` on free.
proof fn lemma_free_id_exists(used: Set<PatternId>, n: int) -> (k: PatternId)
    requires
        used.finite(),
        i32::MIN <= n,
        n + used.len() <= i32::MAX,
    ensures
        n <= k <= n + used.len(),
        !used.contains(k),
    decreases used.len(),
{
    if !used.contains(n as PatternId) {
        n as PatternId
    } else {
        let rest = used.remove(n as PatternId);
        let k = lemma_free_id_exists(rest, n + 1);
        k
    }
}

/// The smallest key from the number of keys on that the map does not hold.
fn next_free_key<V>(m: &BTreeMap<PatternId, V>) -> (id: PatternId)
    requires
        2 * m@.dom().len() <= i32::MAX,
    ensures
        is_next_free_id(m@.dom(), m@.dom().len() as int, id),
        id == next_free_id(m@.dom(), m@.dom().len() as int),
        id <= 2 * m@.dom().len(),
{
    broadcast use vstd::std_specs::btree::group_btree_axioms;
    proof {
        lemma_i32_keys_ordered();
    }
    let n = m.len();
    let ghost w = lemma_free_id_exists(m@.dom(), n as int);
    let mut new_id: PatternId = n as PatternId;
    while m.contains_key(&new_id)
        invariant
            n == m@.dom().len(),
            2 * n <= i32::MAX,
            n <= new_id <= w,
            w <= 2 * n,
            !m@.dom().contains(w),
            forall|j: PatternId| n <= j < new_id ==> m@.dom().contains(j),
        decreases w - new_id,
    {
        new_id = new_id + 1;
    }
    proof {
        lemma_next_free_id_unique(m@.dom(), n as int, new_id);
    }
    new_id
}

/// The vertices that the label map lists under `label` and that have rank `rank`.
pub open spec fn equivalent_vertex_set(p: PatternView, label: PatternLabelId, rank: PatternRankId) -> Set<PatternId> {
    if p.vertex_label_map.contains_key(label) {
        p.vertex_label_map[label].filter(|v: PatternId| p.vertices.contains_key(v) && p.vertices[v].rank == rank)
    } else {
        Set::empty()
    }
}

/// The vertices with label `label` and rank `rank`, by increasing id.
pub open spec fn equivalent_vertices(p: PatternView, label: PatternLabelId, rank: PatternRankId) -> Seq<PatternId> {
    sorted_ints(equivalent_vertex_set(p, label, rank))
}

impl Pattern {
    /// A copy of the pattern.
    fn copy(&self) -> (r: Pattern)
        ensures
            r@ == self@,
    {
        let r = Pattern {
            edges: self.edges.clone(),
            vertices: self.vertices.clone(),
            edge_label_map: self.edge_label_map.clone(),
            vertex_label_map: self.vertex_label_map.clone(),
        };
        assert(r@.vertices == self@.vertices);
        r
    }

    /// Get all the vertices(id) with the same vertex label and vertex rank
    /// These vertices are equivalent in the Pattern
    fn get_equivalent_vertices(&self, v_label: PatternLabelId, v_rank: PatternRankId) -> (vs: Vec<PatternId>)
        ensures
            vs@ == equivalent_vertices(self@, v_label, v_rank),
            strictly_increasing(vs@),
            forall|v: PatternId| #[trigger] vs@.contains(v) <==> equivalent_vertex_set(self@, v_label, v_rank).contains(v),
    {
        broadcast use vstd::std_specs::btree::group_btree_axioms;
        proof {
            lemma_i32_keys_ordered();
        }
        let mut equivalent_vertices: Vec<PatternId> = Vec::new();
        let ghost target = equivalent_vertex_set(self@, v_label, v_rank);
        match self.vertex_label_map.get(&v_label) {
            Some(vs_with_same_label) => {
                let members = set_items(vs_with_same_label);
                assert(self@.vertex_label_map[v_label] == vs_with_same_label@);
                let mut i: usize = 0;
                while i < members.len()
                    invariant
                        i <= members@.len(),
                        strictly_increasing(members@),
                        forall|v: PatternId| vs_with_same_label@.contains(v) <==> #[trigger] members@.contains(v),
                        self@.vertex_label_map.contains_key(v_label),
                        self@.vertex_label_map[v_label] == vs_with_same_label@,
                        target == equivalent_vertex_set(self@, v_label, v_rank),
                        strictly_increasing(equivalent_vertices@),
                        forall|v: PatternId| #[trigger] equivalent_vertices@.contains(v) <==> (members@.take(i as int).contains(v) && target.contains(v)),
                        forall|k: int| 0 <= k < equivalent_vertices@.len() ==> exists|m: int| 0 <= m < i && members@[m] == #[trigger] equivalent_vertices@[k],
                    decreases members@.len() - i,
                {
                    let v_id = members[i];
                    let ghost before = equivalent_vertices@;
                    assert(members@.take(i + 1) == members@.take(i as int).push(v_id));
                    if let Some(vertex) = self.vertices.get(&v_id) {
                        if vertex.rank == v_rank {
                            equivalent_vertices.push(v_id);
                            proof {
                                assert forall|a: int, b: int| 0 <= a < b < equivalent_vertices@.len() implies equivalent_vertices@[a] < equivalent_vertices@[b] by {
                                    if b == before.len() {
                                        let m = choose|m: int| 0 <= m < i && members@[m] == before[a];
                                        assert(members@[m] < members@[i as int]);
                                    }
                                }
                                assert(members@.contains(v_id));
                                assert(target.contains(v_id));
                            }
                        }
                    }
                    proof {
                        assert forall|v: PatternId| #[trigger] equivalent_vertices@.contains(v) <==> (members@.take(i + 1).contains(v) && target.contains(v)) by {
                            if equivalent_vertices@.contains(v) && v != v_id {
                                let k = choose|k: int| 0 <= k < equivalent_vertices@.len() && equivalent_vertices@[k] == v;
                                assert(before.contains(v)) by {
                                    assert(before[k] == v);
                                }
                                let m = choose|m: int| 0 <= m < i && members@.take(i as int)[m] == v;
                                assert(members@.take(i + 1)[m] == v);
                            }
                            if equivalent_vertices@.contains(v) && v == v_id {
                                assert(members@.take(i + 1)[i as int] == v_id);
                            }
                            if members@.take(i + 1).contains(v) && target.contains(v) && v != v_id {
                                let m = choose|m: int| 0 <= m < i + 1 && #[trigger] members@.take(i + 1)[m] == v;
                                assert(members@.take(i as int)[m] == v);
                                assert(before.contains(v));
                                let k = choose|k: int| 0 <= k < before.len() && before[k] == v;
                                assert(equivalent_vertices@[k] == v);
                            }
                            if v == v_id && target.contains(v) {
                                assert(self@.vertices.contains_key(v_id) && self@.vertices[v_id].rank == v_rank);
                                assert(equivalent_vertices@[equivalent_vertices@.len() - 1] == v_id);
                            }
                        }
                        assert forall|k: int| 0 <= k < equivalent_vertices@.len() implies exists|m: int| 0 <= m < i + 1 && members@[m] == #[trigger] equivalent_vertices@[k] by {
                            if k < before.len() {
                                assert(before[k] == equivalent_vertices@[k]);
                                let m = choose|m: int| 0 <= m < i && members@[m] == before[k];
                                assert(members@[m] == equivalent_vertices@[k]);
                            } else {
                                assert(members@[i as int] == equivalent_vertices@[k]);
                            }
                        }
                    }
                    i = i + 1;
                }
                proof {
                    assert(members@.take(members@.len() as int) == members@);
                }
            },
            None => {},
        }
        proof {
            assert(equivalent_vertices@.to_set() =~= target);
            lemma_sorted_ints_is(equivalent_vertices@);
        }
        equivalent_vertices
    }
}

} // verus!

verus! {

/// The direction of an edge seen from its other end.
pub open spec fn reverse_dir(d: PatternDirection) -> PatternDirection {
    match d {
        PatternDirection::Out => PatternDirection::In,
        PatternDirection::In => PatternDirection::Out,
    }
}

/// The edges that an extend step adds, each with the pattern vertex it connects to the new
/// vertex: group by group in the order of `keys`, the i-th edge of a group going to the
/// i-th vertex, by increasing id, of that group's label and rank.
pub open spec fn attachments_from(p: PatternView, step: ExtendStepView, keys: Seq<(PatternLabelId, PatternRankId)>) -> Seq<(ExtendEdge, PatternId)>
    decreases keys.len(),
{
    if keys.len() == 0 {
        Seq::empty()
    } else {
        let key = keys.last();
        let group = step.extend_edges[key];
        let vs = equivalent_vertices(p, key.0, key.1);
        attachments_from(p, step, keys.drop_last()) + Seq::new(group.len(), |i: int| (group[i], vs[i]))
    }
}

/// The edges that an extend step adds, group by group in increasing (label, rank) order.
pub open spec fn attachments(p: PatternView, step: ExtendStepView) -> Seq<(ExtendEdge, PatternId)> {
    attachments_from(p, step, sorted_pairs(step.extend_edges.dom()))
}

/// Every group of the step has at least as many vertices of its label and rank in the
/// pattern as it has edges.
pub open spec fn step_fits(p: PatternView, step: ExtendStepView) -> bool {
    forall|key: (PatternLabelId, PatternRankId)| #[trigger] step.extend_edges.contains_key(key) ==> step.extend_edges[key].len() <= equivalent_vertices(p, key.0, key.1).len()
}

/// The pattern and new vertex after connecting pattern vertex `u` to the new vertex `nv`
/// by extend edge `e`; the edge takes the smallest free id from the number of edges on, and
/// both its ends record it.
pub open spec fn attach(p: PatternView, nv: PatternVertexView, e: ExtendEdge, u: PatternId) -> (PatternView, PatternVertexView) {
    let id = next_free_id(p.edges.dom(), p.edges.dom().len() as int);
    let u_label = p.vertices[u].label;
    let edge = if e.dir == PatternDirection::Out {
        PatternEdge { id, label: e.edge_label, start_v_id: u, end_v_id: nv.id, start_v_label: u_label, end_v_label: nv.label }
    } else {
        PatternEdge { id, label: e.edge_label, start_v_id: nv.id, end_v_id: u, start_v_label: nv.label, end_v_label: u_label }
    };
    (
        PatternView {
            edges: p.edges.insert(id, edge),
            edge_label_map: label_set_insert(p.edge_label_map, e.edge_label, id),
            vertices: p.vertices.insert(u, connect_to(p.vertices[u], id, nv.id, e.dir)),
            ..p
        },
        connect_to(nv, id, u, reverse_dir(e.dir)),
    )
}

/// The pattern and new vertex after all the attachments, one after the other.
pub open spec fn attach_all(p: PatternView, nv: PatternVertexView, atts: Seq<(ExtendEdge, PatternId)>) -> (PatternView, PatternVertexView)
    decreases atts.len(),
{
    if atts.len() == 0 {
        (p, nv)
    } else {
        let r = attach_all(p, nv, atts.drop_last());
        attach(r.0, r.1, atts.last().0, atts.last().1)
    }
}

/// The pattern that an extend step makes: a new vertex with the step's target label and the
/// smallest free id from the number of vertices on, connected by the step's edges.
pub open spec fn extended_pattern(p: PatternView, step: ExtendStepView) -> PatternView {
    let vid = next_free_id(p.vertices.dom(), p.vertices.dom().len() as int);
    let r = attach_all(p, isolated_vertex(vid, step.target_v_label), attachments(p, step));
    PatternView {
        vertices: r.0.vertices.insert(vid, r.1),
        vertex_label_map: label_set_insert(r.0.vertex_label_map, step.target_v_label, vid),
        ..r.0
    }
}

/// The attachments of the first `g` groups are as many as the edges of those groups.
proof fn lemma_attachments_len(p: PatternView, step: ExtendStepView, keys: Seq<(PatternLabelId, PatternRankId)>, g: int)
    requires
        0 <= g <= keys.len(),
    ensures
        attachments_from(p, step, keys.take(g)).len() == edges_in_groups(step.extend_edges, keys, g),
    decreases g,
{
    if g > 0 {
        assert(keys.take(g).drop_last() == keys.take(g - 1));
        lemma_attachments_len(p, step, keys, g - 1);
    }
}

/// Methods for Pattern Extension
impl Pattern {
    /// Get the legal id for the future incoming vertex
    fn get_next_pattern_vertex_id(&self) -> (id: PatternId)
        requires
            2 * self@.vertices.dom().len() <= i32::MAX,
        ensures
            is_next_free_id(self@.vertices.dom(), self@.vertices.dom().len() as int, id),
            id == next_free_id(self@.vertices.dom(), self@.vertices.dom().len() as int),
    {
        assert(self@.vertices.dom() =~= self.vertices@.dom());
        next_free_key(&self.vertices)
    }

    /// Get the legal id for the future incoming edge
    fn get_next_pattern_edge_id(&self) -> (id: PatternId)
        requires
            2 * self@.edges.dom().len() <= i32::MAX,
        ensures
            is_next_free_id(self@.edges.dom(), self@.edges.dom().len() as int, id),
            id == next_free_id(self@.edges.dom(), self@.edges.dom().len() as int),
    {
        next_free_key(&self.edges)
    }

    /// The edges an extend step adds, each with the pattern vertex it connects to the new
    /// vertex; `None` where a group has more edges than vertices to start from.
    fn attachments_of(&self, extend_step: &ExtendStep) -> (atts: Option<Vec<(ExtendEdge, PatternId)>>)
        ensures
            match atts {
                Some(a) => {
                    &&& step_fits(self@, extend_step@)
                    &&& a@ == attachments(self@, extend_step@)
                    &&& forall|j: int| 0 <= j < a@.len() ==> self@.vertices.contains_key(#[trigger] a@[j].1)
                },
                None => !step_fits(self@, extend_step@),
            },
    {
        let groups = extend_step.iter();
        let ghost keys = sorted_pairs(extend_step@.extend_edges.dom());
        let ghost m = extend_step@.extend_edges;
        let mut atts: Vec<(ExtendEdge, PatternId)> = Vec::new();
        let mut g: usize = 0;
        while g < groups.len()
            invariant
                g <= groups@.len(),
                groups@.len() == keys.len(),
                keys == sorted_pairs(extend_step@.extend_edges.dom()),
                m == extend_step@.extend_edges,
                forall|k: (PatternLabelId, PatternRankId)| m.contains_key(k) <==> #[trigger] keys.contains(k),
                forall|i: int| 0 <= i < groups@.len() ==> {
                    &&& #[trigger] groups@[i].0 == keys[i]
                    &&& groups@[i].1@ == m[groups@[i].0]
                },
                atts@ == attachments_from(self@, extend_step@, keys.take(g as int)),
                forall|h: int| 0 <= h < g ==> #[trigger] m[keys[h]].len() <= equivalent_vertices(self@, keys[h].0, keys[h].1).len(),
                forall|j: int| 0 <= j < atts@.len() ==> self@.vertices.contains_key(#[trigger] atts@[j].1),
            decreases groups@.len() - g,
        {
            let key = groups[g].0;
            let edges = &groups[g].1;
            assert(groups@[g as int].0 == keys[g as int]);
            let vs = self.get_equivalent_vertices(key.0, key.1);
            if vs.len() < edges.len() {
                proof {
                    assert(keys.contains(keys[g as int]));
                    assert(m.contains_key(key));
                }
                return None;
            }
            let ghost base = atts@;
            for i in 0..edges.len()
                invariant
                    vs@.len() >= edges@.len(),
                    forall|v: PatternId| #[trigger] vs@.contains(v) <==> equivalent_vertex_set(self@, key.0, key.1).contains(v),
                    atts@ == base + Seq::new(i as nat, |j: int| (edges@[j], vs@[j])),
                    forall|j: int| 0 <= j < base.len() ==> self@.vertices.contains_key(#[trigger] base[j].1),
                    forall|j: int| 0 <= j < atts@.len() ==> self@.vertices.contains_key(#[trigger] atts@[j].1),
            {
                atts.push((edges[i], vs[i]));
                proof {
                    assert(vs@.contains(vs@[i as int]));
                    assert(atts@ =~= base + Seq::new((i + 1) as nat, |j: int| (edges@[j], vs@[j])));
                }
            }
            proof {
                assert(keys.take(g + 1).drop_last() == keys.take(g as int));
                assert(keys.take(g + 1).last() == keys[g as int]);
                assert(atts@ =~= attachments_from(self@, extend_step@, keys.take(g + 1)));
            }
            g = g + 1;
        }
        proof {
            assert(keys.take(keys.len() as int) == keys);
            assert forall|key: (PatternLabelId, PatternRankId)| #[trigger] m.contains_key(key) implies m[key].len() <= equivalent_vertices(self@, key.0, key.1).len() by {
                assert(keys.contains(key));
                let h = choose|h: int| 0 <= h < keys.len() && keys[h] == key;
                assert(m[keys[h]].len() <= equivalent_vertices(self@, keys[h].0, keys[h].1).len());
            }
        }
        Some(atts)
    }
}

} // verus!

verus! {

impl Pattern {
    /// Extend the current Pattern to a new Pattern with the given ExtendStep
    /// If the ExtendStep is not matched with the current Pattern, the function will return None
    /// Else, it will return the new Pattern after the extension
    pub fn extend(&self, extend_step: ExtendStep) -> (extended: Option<Pattern>)
        requires
            2 * self@.vertices.dom().len() <= i32::MAX,
            2 * (self@.edges.dom().len() + extend_edges_num(extend_step@)) <= i32::MAX,
            forall|v: PatternId| #[trigger] self@.vertices.contains_key(v) ==> self@.vertices[v].out_degree + self@.vertices[v].in_degree
                + extend_edges_num(extend_step@) <= usize::MAX,
        ensures
            match extended {
                Some(q) => step_fits(self@, extend_step@) && q@ == extended_pattern(self@, extend_step@),
                None => !step_fits(self@, extend_step@),
            },
    {
        broadcast use vstd::std_specs::btree::group_btree_axioms;
        proof {
            lemma_i32_keys_ordered();
            lemma_vertices_view_insert();
        }
        let target_v_label = extend_step.get_target_v_label();
        let atts = match self.attachments_of(&extend_step) {
            Some(atts) => atts,
            None => return None,
        };
        proof {
            let keys = sorted_pairs(extend_step@.extend_edges.dom());
            lemma_attachments_len(self@, extend_step@, keys, keys.len() as int);
            assert(keys.take(keys.len() as int) == keys);
        }
        let mut new_pattern = self.copy();
        let new_v_id = self.get_next_pattern_vertex_id();
        let mut new_vertex = PatternVertex::isolated(new_v_id, target_v_label);
        let ghost nv0 = isolated_vertex(new_v_id, target_v_label);
        for k in 0..atts.len()
            invariant
                (new_pattern@, new_vertex@) == attach_all(self@, nv0, atts@.take(k as int)),
                new_pattern@.edges.dom().len() == self@.edges.dom().len() + k,
                new_pattern@.vertices.dom() == self@.vertices.dom(),
                forall|v: PatternId| #[trigger] self@.vertices.contains_key(v) ==> new_pattern@.vertices[v].label == self@.vertices[v].label,
                forall|v: PatternId| #[trigger] self@.vertices.contains_key(v) ==> new_pattern@.vertices[v].out_degree
                    + new_pattern@.vertices[v].in_degree <= self@.vertices[v].out_degree + self@.vertices[v].in_degree + k,
                forall|v: PatternId| #[trigger] self@.vertices.contains_key(v) ==> self@.vertices[v].out_degree + self@.vertices[v].in_degree
                    + atts@.len() <= usize::MAX,
                new_vertex@.id == new_v_id,
                new_vertex@.label == target_v_label,
                new_vertex@.in_degree + new_vertex@.out_degree <= k,
                2 * (self@.edges.dom().len() + atts@.len()) <= i32::MAX,
                forall|j: int| 0 <= j < atts@.len() ==> self@.vertices.contains_key(#[trigger] atts@[j].1),
        {
            let (ext, u) = atts[k];
            assert(self@.vertices.contains_key(atts@[k as int].1));
            let ghost before_p = new_pattern@;
            let ghost before_v = new_vertex@;
            let id = new_pattern.get_next_pattern_edge_id();
            let u_label = match self.get_vertex_from_id(u) {
                Some(vertex) => vertex.label,
                None => target_v_label,
            };
            let new_pattern_edge = match ext.dir {
                // Case that the extend edge's direciton is Out
                PatternDirection::Out => PatternEdge {
                    id,
                    label: ext.edge_label,
                    start_v_id: u,
                    end_v_id: new_v_id,
                    start_v_label: u_label,
                    end_v_label: target_v_label,
                },
                // Case that the extend edge's direction is Incoming
                PatternDirection::In => PatternEdge {
                    id,
                    label: ext.edge_label,
                    start_v_id: new_v_id,
                    end_v_id: u,
                    start_v_label: target_v_label,
                    end_v_label: u_label,
                },
            };
            let back = match ext.dir {
                PatternDirection::Out => PatternDirection::In,
                PatternDirection::In => PatternDirection::Out,
            };
            // update newly extended pattern vertex's connection info
            new_vertex.connect(id, u, back);
            // and that of the pattern vertex at the other end
            assert(new_pattern@.vertices.contains_key(u));
            match new_pattern.get_vertex_mut_from_id(u) {
                Some(vertex) => {
                    vertex.connect(id, new_v_id, ext.dir);
                },
                None => {},
            }
            // Add the new pattern edge info to the new Pattern
            insert_label_member(&mut new_pattern.edge_label_map, ext.edge_label, id);
            new_pattern.edges.insert(id, new_pattern_edge);
            proof {
                assert(atts@.take(k + 1).drop_last() == atts@.take(k as int));
                assert(atts@.take(k + 1).last() == (ext, u));
                let r = attach(before_p, before_v, ext, u);
                assert(before_p.vertices[u].label == u_label);
                assert(new_vertex@ == r.1);
                assert(new_pattern@.vertices =~= r.0.vertices);
                assert(new_pattern@ == r.0);
                assert(!before_p.edges.dom().contains(id));
                assert(new_pattern@.vertices.dom() =~= self@.vertices.dom());
                assert forall|v: PatternId| #[trigger] self@.vertices.contains_key(v) implies new_pattern@.vertices[v].out_degree
                    + new_pattern@.vertices[v].in_degree <= self@.vertices[v].out_degree + self@.vertices[v].in_degree + k + 1 by {
                    assert(before_p.vertices.contains_key(v));
                }
                assert forall|v: PatternId| #[trigger] self@.vertices.contains_key(v) implies new_pattern@.vertices[v].label == self@.vertices[v].label by {
                    assert(before_p.vertices.contains_key(v));
                }
            }
        }
        proof {
            assert(atts@.take(atts@.len() as int) == atts@);
        }
        // Add the newly extended pattern vertex to the new pattern
        insert_label_member(&mut new_pattern.vertex_label_map, target_v_label, new_v_id);
        new_pattern.vertices.insert(new_v_id, new_vertex);
        Some(new_pattern)
    }
}

} // verus!

verus! {

/// Where some id from `n` on is free, there is a smallest one.
proof fn lemma_least_free_id(used: Set<PatternId>, n: int, w: PatternId)
    requires
        i32::MIN <= n <= w,
        !used.contains(w),
    ensures
        is_next_free_id(used, n, next_free_id(used, n)),
        next_free_id(used, n) <= w,
    decreases w - n,
{
    if !used.contains(n as PatternId) {
        lemma_next_free_id_unique(used, n, n as PatternId);
    } else {
        lemma_least_free_id(used, n + 1, w);
        let k = next_free_id(used, n + 1);
        assert(is_next_free_id(used, n, k));
        lemma_next_free_id_unique(used, n, k);
    }
}

/// The id an edge or vertex takes is free, and at most twice the number of ids in use.
proof fn lemma_next_free_id(used: Set<PatternId>)
    requires
        used.finite(),
        2 * used.len() <= i32::MAX,
    ensures
        is_next_free_id(used, used.len() as int, next_free_id(used, used.len() as int)),
        next_free_id(used, used.len() as int) <= 2 * used.len(),
{
    let w = lemma_free_id_exists(used, used.len() as int);
    lemma_least_free_id(used, used.len() as int, w);
}

/// What connecting the attachments one after the other does: the vertices stay, each
/// attachment adds one edge under a fresh id, the edges that were there stay, and each
/// attachment raises the new vertex's in or out degree by one.
proof fn lemma_attach_all(p: PatternView, nv: PatternVertexView, atts: Seq<(ExtendEdge, PatternId)>)
    requires
        p.edges.dom().finite(),
        2 * (p.edges.dom().len() + atts.len()) <= i32::MAX,
        forall|j: int| 0 <= j < atts.len() ==> p.vertices.contains_key(#[trigger] atts[j].1),
    ensures
        ({
            let r = attach_all(p, nv, atts);
            &&& r.0.vertices.dom() == p.vertices.dom()
            &&& forall|v: PatternId| #[trigger] p.vertices.contains_key(v) ==> {
                &&& r.0.vertices[v].id == p.vertices[v].id
                &&& r.0.vertices[v].label == p.vertices[v].label
                &&& r.0.vertices[v].rank == p.vertices[v].rank
            }
            &&& r.0.vertex_label_map == p.vertex_label_map
            &&& r.0.edges.dom().finite()
            &&& r.0.edges.dom().len() == p.edges.dom().len() + atts.len()
            &&& forall|e: PatternId| #[trigger] p.edges.contains_key(e) ==> r.0.edges.contains_key(e) && r.0.edges[e] == p.edges[e]
            &&& r.1.id == nv.id
            &&& r.1.label == nv.label
            &&& r.1.rank == nv.rank
            &&& r.1.in_degree + r.1.out_degree == nv.in_degree + nv.out_degree + atts.len()
        }),
    decreases atts.len(),
{
    if atts.len() > 0 {
        let prev = atts.drop_last();
        assert forall|j: int| 0 <= j < prev.len() implies p.vertices.contains_key(#[trigger] prev[j].1) by {
            assert(prev[j] == atts[j]);
        }
        lemma_attach_all(p, nv, prev);
        let r = attach_all(p, nv, prev);
        lemma_next_free_id(r.0.edges.dom());
        assert(p.vertices.contains_key(atts[atts.len() - 1].1));
        let r2 = attach_all(p, nv, atts);
        assert(r2.0.vertices.dom() =~= p.vertices.dom());
    }
}

/// Extension adds one vertex, with the step's target label and an id that was free, and
/// one edge for each extend edge of the step; the vertices and edges that were there stay
/// as they were.
pub proof fn lemma_extend_adds_one_vertex(p: PatternView, step: ExtendStepView)
    requires
        p.wf(),
        p.vertices.dom().finite(),
        step.extend_edges.dom().finite(),
        p.edges.dom().finite(),
        step_fits(p, step),
        2 * p.vertices.dom().len() <= i32::MAX,
        2 * (p.edges.dom().len() + extend_edges_num(step)) <= i32::MAX,
    ensures
        ({
            let q = extended_pattern(p, step);
            let vid = next_free_id(p.vertices.dom(), p.vertices.dom().len() as int);
            &&& !p.vertices.contains_key(vid)
            &&& q.vertices.dom() == p.vertices.dom().insert(vid)
            &&& q.vertices.dom().len() == p.vertices.dom().len() + 1
            &&& forall|v: PatternId| #[trigger] p.vertices.contains_key(v) ==> {
                &&& q.vertices[v].id == p.vertices[v].id
                &&& q.vertices[v].label == p.vertices[v].label
                &&& q.vertices[v].rank == p.vertices[v].rank
            }
            &&& q.vertices[vid].label == step.target_v_label
            &&& q.vertices[vid].in_degree + q.vertices[vid].out_degree == extend_edges_num(step)
            &&& q.edges.dom().len() == p.edges.dom().len() + extend_edges_num(step)
            &&& forall|e: PatternId| #[trigger] p.edges.contains_key(e) ==> q.edges.contains_key(e) && q.edges[e] == p.edges[e]
        }),
{
    let keys = sorted_pairs(step.extend_edges.dom());
    lemma_attachments_len(p, step, keys, keys.len() as int);
    assert(keys.take(keys.len() as int) == keys);
    lemma_sorted_pairs_exists(step.extend_edges.dom());
    assert forall|i: int| 0 <= i < keys.len() implies step.extend_edges[#[trigger] keys[i]].len() <= equivalent_vertices(p, keys[i].0, keys[i].1).len() by {
        assert(keys.to_set().contains(keys[i]));
        assert(step.extend_edges.contains_key(keys[i]));
    }
    lemma_attachments_in_pattern(p, step, keys);
    lemma_next_free_id(p.vertices.dom());
    let vid = next_free_id(p.vertices.dom(), p.vertices.dom().len() as int);
    lemma_attach_all(p, isolated_vertex(vid, step.target_v_label), attachments(p, step));
    let q = extended_pattern(p, step);
    assert(q.vertices.dom() =~= p.vertices.dom().insert(vid));
}

} // verus!

verus! {

/// While the attachments are connected, each edge sits under its id and joins a vertex of the
/// pattern to the new vertex, the new vertex's connections lead to those edges and to vertices
/// of the pattern, and the edge label map lists edges only.
proof fn lemma_attach_all_wf(p: PatternView, nv: PatternVertexView, atts: Seq<(ExtendEdge, PatternId)>)
    requires
        p.wf(),
        nv.connect_edges == Map::<PatternId, (PatternId, PatternDirection)>::empty(),
        forall|j: int| 0 <= j < atts.len() ==> p.vertices.contains_key(#[trigger] atts[j].1),
    ensures
        ({
            let r = attach_all(p, nv, atts);
            &&& r.0.vertices.dom() == p.vertices.dom()
            &&& forall|v: PatternId| #[trigger] p.vertices.contains_key(v) ==> {
                &&& r.0.vertices[v].id == p.vertices[v].id
                &&& r.0.vertices[v].label == p.vertices[v].label
            }
            &&& forall|v: PatternId, e: PatternId| #[trigger] p.vertices.contains_key(v) && #[trigger] r.0.vertices[v].connect_edges.contains_key(e) ==> {
                &&& r.0.edges.contains_key(e)
                &&& (p.vertices.contains_key(r.0.vertices[v].connect_edges[e].0) || r.0.vertices[v].connect_edges[e].0 == nv.id)
            }
            &&& r.0.vertex_label_map == p.vertex_label_map
            &&& r.1.id == nv.id
            &&& r.1.label == nv.label
            &&& forall|e: PatternId| #[trigger] p.edges.contains_key(e) ==> r.0.edges.contains_key(e)
            &&& forall|e: PatternId| #[trigger] r.0.edges.contains_key(e) ==> {
                &&& r.0.edges[e].id == e
                &&& (p.vertices.contains_key(r.0.edges[e].start_v_id) || r.0.edges[e].start_v_id == nv.id)
                &&& (p.vertices.contains_key(r.0.edges[e].end_v_id) || r.0.edges[e].end_v_id == nv.id)
            }
            &&& forall|e: PatternId| #[trigger] r.1.connect_edges.contains_key(e) ==> {
                &&& r.0.edges.contains_key(e)
                &&& p.vertices.contains_key(r.1.connect_edges[e].0)
            }
            &&& forall|l: PatternLabelId, e: PatternId| #[trigger] r.0.edge_label_map.contains_key(l) && #[trigger] r.0.edge_label_map[l].contains(e) ==> r.0.edges.contains_key(e)
        }),
    decreases atts.len(),
{
    if atts.len() > 0 {
        let prev = atts.drop_last();
        assert forall|j: int| 0 <= j < prev.len() implies p.vertices.contains_key(#[trigger] prev[j].1) by {
            assert(prev[j] == atts[j]);
        }
        lemma_attach_all_wf(p, nv, prev);
        assert(p.vertices.contains_key(atts[atts.len() - 1].1));
        let r0 = attach_all(p, nv, prev);
        let r = attach_all(p, nv, atts);
        let id = next_free_id(r0.0.edges.dom(), r0.0.edges.dom().len() as int);
        let u = atts[atts.len() - 1].1;
        assert forall|l: PatternLabelId, e: PatternId| #[trigger] r.0.edge_label_map.contains_key(l) && #[trigger] r.0.edge_label_map[l].contains(e) implies r.0.edges.contains_key(e) by {
            if e != id {
                assert(r0.0.edge_label_map.contains_key(l) && r0.0.edge_label_map[l].contains(e));
            }
        }
        assert(r.0.vertices.dom() =~= p.vertices.dom());
        assert forall|v: PatternId, e: PatternId| #[trigger] p.vertices.contains_key(v) && #[trigger] r.0.vertices[v].connect_edges.contains_key(e) implies {
            &&& r.0.edges.contains_key(e)
            &&& (p.vertices.contains_key(r.0.vertices[v].connect_edges[e].0) || r.0.vertices[v].connect_edges[e].0 == nv.id)
        } by {
            if v != u || e != id {
                assert(r0.0.vertices[v].connect_edges.contains_key(e));
            }
        }
    }
}

/// Every vertex that an attachment names is a vertex of the pattern.
proof fn lemma_attachments_in_pattern(p: PatternView, step: ExtendStepView, keys: Seq<(PatternLabelId, PatternRankId)>)
    requires
        p.wf(),
        p.vertices.dom().finite(),
        forall|i: int| 0 <= i < keys.len() ==> step.extend_edges[#[trigger] keys[i]].len() <= equivalent_vertices(p, keys[i].0, keys[i].1).len(),
    ensures
        forall|j: int| 0 <= j < attachments_from(p, step, keys).len() ==> p.vertices.contains_key(#[trigger] attachments_from(p, step, keys)[j].1),
    decreases keys.len(),
{
    if keys.len() > 0 {
        let front = keys.drop_last();
        assert forall|i: int| 0 <= i < front.len() implies step.extend_edges[#[trigger] front[i]].len() <= equivalent_vertices(p, front[i].0, front[i].1).len() by {
            assert(front[i] == keys[i]);
        }
        lemma_attachments_in_pattern(p, step, front);
        let key = keys.last();
        assert(keys[keys.len() - 1] == key);
        let set = equivalent_vertex_set(p, key.0, key.1);
        assert(set.subset_of(p.vertices.dom()));
        vstd::set_lib::lemma_len_subset(set, p.vertices.dom());
        lemma_sorted_ints_exists(set);
        let vs = equivalent_vertices(p, key.0, key.1);
        let prev = attachments_from(p, step, front);
        let all = attachments_from(p, step, keys);
        assert forall|j: int| 0 <= j < all.len() implies p.vertices.contains_key(#[trigger] all[j].1) by {
            if j < prev.len() {
                assert(all[j] == prev[j]);
            } else {
                let i = j - prev.len();
                assert(all[j].1 == vs[i]);
                assert(vs.to_set().contains(vs[i]));
            }
        }
    }
}

/// Extension keeps a pattern well-formed.
pub proof fn lemma_extend_wf(p: PatternView, step: ExtendStepView)
    requires
        p.wf(),
        p.vertices.dom().finite(),
        step.extend_edges.dom().finite(),
        step_fits(p, step),
        2 * p.vertices.dom().len() <= i32::MAX,
    ensures
        extended_pattern(p, step).wf(),
{
    let keys = sorted_pairs(step.extend_edges.dom());
    lemma_sorted_pairs_exists(step.extend_edges.dom());
    assert forall|i: int| 0 <= i < keys.len() implies step.extend_edges[#[trigger] keys[i]].len() <= equivalent_vertices(p, keys[i].0, keys[i].1).len() by {
        assert(keys.to_set().contains(keys[i]));
        assert(step.extend_edges.contains_key(keys[i]));
    }
    lemma_attachments_in_pattern(p, step, keys);
    lemma_next_free_id(p.vertices.dom());
    let vid = next_free_id(p.vertices.dom(), p.vertices.dom().len() as int);
    let nv = isolated_vertex(vid, step.target_v_label);
    let atts = attachments(p, step);
    lemma_attach_all_wf(p, nv, atts);
    let r = attach_all(p, nv, atts);
    let q = extended_pattern(p, step);
    assert forall|v: PatternId, e: PatternId| #[trigger] q.vertices.contains_key(v) && #[trigger] q.vertices[v].connect_edges.contains_key(e) implies {
        &&& q.edges.contains_key(e)
        &&& q.vertices.contains_key(q.vertices[v].connect_edges[e].0)
    } by {
        if v != vid {
            assert(p.vertices.contains_key(v));
        }
    }
    assert forall|l: PatternLabelId, v: PatternId| #[trigger] q.vertex_label_map.contains_key(l) && #[trigger] q.vertex_label_map[l].contains(v) implies {
        &&& q.vertices.contains_key(v)
        &&& q.vertices[v].label == l
    } by {
        if v != vid || l != step.target_v_label {
            if !(p.vertex_label_map.contains_key(l) && p.vertex_label_map[l].contains(v)) {
                assert(v == vid && l == step.target_v_label);
            }
        }
    }
    assert forall|v: PatternId| #[trigger] q.vertices.contains_key(v) implies {
        &&& q.vertices[v].id == v
        &&& q.vertex_label_map.contains_key(q.vertices[v].label)
        &&& q.vertex_label_map[q.vertices[v].label].contains(v)
    } by {
        if v != vid {
            assert(p.vertices.contains_key(v));
        }
    }
    assert forall|l: PatternLabelId| #[trigger] q.vertex_label_map.contains_key(l) implies q.vertex_label_map[l] != Set::<PatternId>::empty() by {
        if l == step.target_v_label {
            assert(q.vertex_label_map[l].contains(vid));
        } else {
            assert(p.vertex_label_map.contains_key(l));
            assert(q.vertex_label_map[l] == p.vertex_label_map[l]);
        }
    }
}

} // verus!

verus! {

/// What the initial ranking reads of a connection of a vertex: the start and end labels that
/// the edge records, the edge label, the edge id, and the label of the vertex at the other end.
pub type ConnectionInfo = (i32, i32, i32, i32, i32);

/// The lexicographic order of connection infos.
pub open spec fn info_le(a: ConnectionInfo, b: ConnectionInfo) -> bool {
    a.0 < b.0 || (a.0 == b.0 && (a.1 < b.1 || (a.1 == b.1 && (a.2 < b.2 || (a.2 == b.2 && (a.3 < b.3 || (a.3 == b.3
        && a.4 <= b.4)))))))
}

/// `info_le` as a relation.
pub open spec fn info_order() -> spec_fn(ConnectionInfo, ConnectionInfo) -> bool {
    |a: ConnectionInfo, b: ConnectionInfo| info_le(a, b)
}

/// `info_le` is a total order.
pub proof fn lemma_info_order_total()
    ensures
        vstd::relations::total_ordering(info_order()),
{
    let r = info_order();
    assert(vstd::relations::reflexive(r));
    assert forall|a: ConnectionInfo, b: ConnectionInfo| #[trigger] r(a, b) && #[trigger] r(b, a) implies a == b by {
        assert(info_le(a, b) && info_le(b, a));
    }
    assert(vstd::relations::antisymmetric(r));
    assert forall|a: ConnectionInfo, b: ConnectionInfo, c: ConnectionInfo| #[trigger] r(a, b) && #[trigger] r(b, c) implies r(a, c) by {
        assert(info_le(a, b) && info_le(b, c));
    }
    assert(vstd::relations::transitive(r));
    assert forall|a: ConnectionInfo, b: ConnectionInfo| #[trigger] r(a, b) || #[trigger] r(b, a) by {
        assert(info_le(a, b) || info_le(b, a));
    }
    assert(vstd::relations::strongly_connected(r));
}

/// The infos of the connections of `v` in direction `d` through the edges `ids`, in that order.
pub open spec fn connection_infos(p: PatternView, v: PatternVertexView, ids: Seq<PatternId>, d: PatternDirection) -> Seq<ConnectionInfo>
    decreases ids.len(),
{
    if ids.len() == 0 {
        Seq::empty()
    } else {
        let prev = connection_infos(p, v, ids.drop_last(), d);
        let e = ids.last();
        let c = v.connect_edges[e];
        if c.1 == d {
            let edge = p.edges[e];
            prev.push((edge.start_v_label, edge.end_v_label, edge.label, e, p.vertices[c.0].label))
        } else {
            prev
        }
    }
}

/// The (label of the other end, edge label) pairs of the connections of `v` in direction `d`,
/// ordered by the labels that the edges record and then by edge id.
pub open spec fn neighbour_pairs(p: PatternView, v: PatternVertexView, d: PatternDirection) -> Seq<(i32, i32)> {
    connection_infos(p, v, sorted_ints(v.connect_edges.dom()), d).sort_by(info_order()).map_values(
        |t: ConnectionInfo| (t.4, t.2),
    )
}

/// Position by position from `i` on, how `a` compares to `b` (-1, 0 or 1): first by the first
/// component, then by the second; positions beyond the shorter sequence are not compared.
pub open spec fn pairs_order_from(a: Seq<(i32, i32)>, b: Seq<(i32, i32)>, i: int) -> int
    decreases a.len() - i,
{
    if i < 0 || i >= a.len() || i >= b.len() {
        0
    } else if a[i].0 < b[i].0 {
        -1
    } else if a[i].0 > b[i].0 {
        1
    } else if a[i].1 < b[i].1 {
        -1
    } else if a[i].1 > b[i].1 {
        1
    } else {
        pairs_order_from(a, b, i + 1)
    }
}

/// How the initial ranking orders two vertices (-1, 0 or 1): by label, out degree and in
/// degree, then by their out neighbour pairs and then by their in neighbour pairs.
pub open spec fn initial_order(p: PatternView, a: PatternId, b: PatternId) -> int {
    let va = p.vertices[a];
    let vb = p.vertices[b];
    if a == b {
        0
    } else if va.label < vb.label {
        -1
    } else if va.label > vb.label {
        1
    } else if va.out_degree < vb.out_degree {
        -1
    } else if va.out_degree > vb.out_degree {
        1
    } else if va.in_degree < vb.in_degree {
        -1
    } else if va.in_degree > vb.in_degree {
        1
    } else {
        let c = pairs_order_from(neighbour_pairs(p, va, PatternDirection::Out), neighbour_pairs(p, vb, PatternDirection::Out), 0);
        if c != 0 {
            c
        } else {
            pairs_order_from(neighbour_pairs(p, va, PatternDirection::In), neighbour_pairs(p, vb, PatternDirection::In), 0)
        }
    }
}

/// The connections of every vertex lead to edges and vertices of the pattern.
pub open spec fn connections_resolve(p: PatternView) -> bool {
    forall|v: PatternId, e: PatternId| #[trigger] p.vertices.contains_key(v) && #[trigger] p.vertices[v].connect_edges.contains_key(e) ==> {
        &&& p.edges.contains_key(e)
        &&& p.vertices.contains_key(p.vertices[v].connect_edges[e].0)
    }
}

/// Inserting `x` after the members that come no later than it, and before the first that
/// comes later, keeps a sorted sequence sorted.
#[verifier::spinoff_prover]
#[verifier::rlimit(40)]
proof fn lemma_insert_sorted(before: Seq<ConnectionInfo>, j: int, x: ConnectionInfo)
    requires
        vstd::relations::total_ordering(info_order()),
        vstd::relations::sorted_by(before, info_order()),
        0 <= j <= before.len(),
        forall|k: int| 0 <= k < j ==> info_le(#[trigger] before[k], x),
        j < before.len() ==> !info_le(before[j], x),
    ensures
        vstd::relations::sorted_by(before.insert(j, x), info_order()),
{
    let r = before.insert(j, x);
    before.insert_ensures(j, x);
    assert forall|a: int, b: int| 0 <= a < b < r.len() implies #[trigger] info_order()(r[a], r[b]) by {
        if b < j {
            assert(info_order()(before[a], before[b]));
        } else if b == j {
        } else if a < j {
            assert(r[b] == before[b - 1]);
            assert(info_order()(before[a], before[b - 1]));
        } else if a == j {
            assert(r[b] == before[b - 1]);
            assert(!info_le(before[j], x));
            if b - 1 > j {
                assert(info_order()(before[j], before[b - 1]));
            }
        } else {
            assert(r[a] == before[a - 1]);
            assert(r[b] == before[b - 1]);
            assert(info_order()(before[a - 1], before[b - 1]));
        }
    }
}

/// Sorts connection infos by `info_le`.
fn sort_infos(v: &Vec<ConnectionInfo>) -> (r: Vec<ConnectionInfo>)
    ensures
        r@ == v@.sort_by(info_order()),
{
    proof {
        lemma_info_order_total();
    }
    let mut r: Vec<ConnectionInfo> = Vec::new();
    assert(r@ =~= v@.take(0));
    for i in 0..v.len()
        invariant
            vstd::relations::total_ordering(info_order()),
            vstd::relations::sorted_by(r@, info_order()),
            r@.to_multiset() == v@.take(i as int).to_multiset(),
    {
        let x = v[i];
        let mut j: usize = 0;
        while j < r.len() && info_leq(r[j], x)
            invariant
                j <= r@.len(),
                forall|k: int| 0 <= k < j ==> info_le(#[trigger] r@[k], x),
            decreases r@.len() - j,
        {
            j = j + 1;
        }
        let ghost before = r@;
        r.insert(j, x);
        proof {
            lemma_insert_sorted(before, j as int, x);
            assert(v@.take(i + 1) == v@.take(i as int).push(x));
            vstd::seq_lib::to_multiset_insert(before, j as int, x);
            vstd::seq_lib::to_multiset_build(v@.take(i as int), x);
        }
    }
    proof {
        assert(v@.take(v@.len() as int) == v@);
        v@.lemma_sort_by_ensures(info_order());
        vstd::seq_lib::lemma_sorted_unique(r@, v@.sort_by(info_order()), info_order());
    }
    r
}

/// Whether `a` comes no later than `b` by `info_le`.
fn info_leq(a: ConnectionInfo, b: ConnectionInfo) -> (r: bool)
    ensures
        r == info_le(a, b),
{
    a.0 < b.0 || (a.0 == b.0 && (a.1 < b.1 || (a.1 == b.1 && (a.2 < b.2 || (a.2 == b.2 && (a.3 < b.3 || (a.3 == b.3
        && a.4 <= b.4)))))))
}

} // verus!

verus! {

/// Compares two pair sequences position by position over the shorter one's length.
fn pairs_cmp(a: &Vec<(i32, i32)>, b: &Vec<(i32, i32)>) -> (order: std::cmp::Ordering)
    ensures
        match order {
            std::cmp::Ordering::Less => pairs_order_from(a@, b@, 0) == -1,
            std::cmp::Ordering::Greater => pairs_order_from(a@, b@, 0) == 1,
            std::cmp::Ordering::Equal => pairs_order_from(a@, b@, 0) == 0,
        },
{
    let r = pairs_order(a, b);
    if r < 0 {
        std::cmp::Ordering::Less
    } else if r > 0 {
        std::cmp::Ordering::Greater
    } else {
        std::cmp::Ordering::Equal
    }
}

/// How two pair sequences compare (-1, 0 or 1), position by position over the shorter one's length.
fn pairs_order(a: &Vec<(i32, i32)>, b: &Vec<(i32, i32)>) -> (r: i8)
    ensures
        r == pairs_order_from(a@, b@, 0),
        r == -1 || r == 0 || r == 1,
{
    let n = if a.len() < b.len() {
        a.len()
    } else {
        b.len()
    };
    let mut i: usize = 0;
    while i < n
        invariant
            n <= a@.len(),
            n <= b@.len(),
            n == a@.len() || n == b@.len(),
            i <= n,
            pairs_order_from(a@, b@, 0) == pairs_order_from(a@, b@, i as int),
        decreases n - i,
    {
        if a[i].0 < b[i].0 {
            return -1;
        } else if a[i].0 > b[i].0 {
            return 1;
        } else if a[i].1 < b[i].1 {
            return -1;
        } else if a[i].1 > b[i].1 {
            return 1;
        }
        i = i + 1;
    }
    0
}

impl Pattern {
    /// The infos of the connections of a vertex in one direction, by increasing edge id.
    fn connection_infos_of(&self, v_id: PatternId, dir: PatternDirection) -> (infos: Vec<ConnectionInfo>)
        requires
            connections_resolve(self@),
            self@.vertices.contains_key(v_id),
        ensures
            infos@ == connection_infos(self@, self@.vertices[v_id], sorted_ints(self@.vertices[v_id].connect_edges.dom()), dir),
    {
        broadcast use vstd::std_specs::btree::group_btree_axioms;
        proof {
            lemma_i32_keys_ordered();
        }
        let mut infos: Vec<ConnectionInfo> = Vec::new();
        let vertex = match self.vertices.get(&v_id) {
            Some(vertex) => vertex,
            None => return infos,
        };
        let ghost vv = self@.vertices[v_id];
        assert(vv == vertex@);
        let ids = map_keys(&vertex.connect_edges);
        for i in 0..ids.len()
            invariant
                connections_resolve(self@),
                self@.vertices.contains_key(v_id),
                vv == self@.vertices[v_id],
                vv == vertex@,
                ids@ == sorted_ints(vv.connect_edges.dom()),
                forall|k: PatternId| vv.connect_edges.contains_key(k) <==> #[trigger] ids@.contains(k),
                infos@ == connection_infos(self@, vv, ids@.take(i as int), dir),
        {
            let e = ids[i];
            assert(ids@.contains(e));
            assert(ids@.take(i + 1).drop_last() == ids@.take(i as int));
            assert(ids@.take(i + 1).last() == e);
            if let Some(connection) = vertex.connect_edges.get(&e) {
                let (other, d) = *connection;
                if d == dir {
                    let edge = match self.get_edge_from_id(e) {
                        Some(edge) => *edge,
                        None => return infos,
                    };
                    let other_label = match self.get_vertex_from_id(other) {
                        Some(other_vertex) => other_vertex.label,
                        None => return infos,
                    };
                    infos.push((edge.start_v_label, edge.end_v_label, edge.label, e, other_label));
                }
            }
        }
        proof {
            assert(ids@.take(ids@.len() as int) == ids@);
        }
        infos
    }

    /// The neighbour pairs of a vertex in one direction.
    fn neighbour_pairs_of(&self, v_id: PatternId, dir: PatternDirection) -> (pairs: Vec<(i32, i32)>)
        requires
            connections_resolve(self@),
            self@.vertices.contains_key(v_id),
        ensures
            pairs@ == neighbour_pairs(self@, self@.vertices[v_id], dir),
    {
        let infos = self.connection_infos_of(v_id, dir);
        let sorted = sort_infos(&infos);
        let mut pairs: Vec<(i32, i32)> = Vec::new();
        for i in 0..sorted.len()
            invariant
                pairs@ == sorted@.take(i as int).map_values(|t: ConnectionInfo| (t.4, t.2)),
        {
            pairs.push((sorted[i].4, sorted[i].2));
            proof {
                assert(sorted@.take(i + 1).map_values(|t: ConnectionInfo| (t.4, t.2)) =~= sorted@.take(i as int).map_values(|t: ConnectionInfo| (t.4, t.2)).push((sorted@[i as int].4, sorted@[i as int].2)));
            }
        }
        proof {
            assert(sorted@.take(sorted@.len() as int) == sorted@);
        }
        pairs
    }

    /// Get the Order of two PatternVertices of a Pattern
    fn cmp_vertices_for_initial_rank(&self, v1_id: PatternId, v2_id: PatternId) -> (order: std::cmp::Ordering)
        requires
            connections_resolve(self@),
            self@.vertices.contains_key(v1_id),
            self@.vertices.contains_key(v2_id),
        ensures
            match order {
                std::cmp::Ordering::Less => initial_order(self@, v1_id, v2_id) == -1,
                std::cmp::Ordering::Greater => initial_order(self@, v1_id, v2_id) == 1,
                std::cmp::Ordering::Equal => initial_order(self@, v1_id, v2_id) == 0,
            },
    {
        if v1_id == v2_id {
            return std::cmp::Ordering::Equal;
        }
        let (label1, out1, in1) = match self.get_vertex_from_id(v1_id) {
            Some(v) => (v.label, v.out_degree, v.in_degree),
            None => return std::cmp::Ordering::Equal,
        };
        let (label2, out2, in2) = match self.get_vertex_from_id(v2_id) {
            Some(v) => (v.label, v.out_degree, v.in_degree),
            None => return std::cmp::Ordering::Equal,
        };
        if label1 < label2 {
            return std::cmp::Ordering::Less;
        } else if label1 > label2 {
            return std::cmp::Ordering::Greater;
        }
        // Compare Vertex Out Degree
        if out1 < out2 {
            return std::cmp::Ordering::Less;
        } else if out1 > out2 {
            return std::cmp::Ordering::Greater;
        }
        // Compare Vertex In Degree
        if in1 < in2 {
            return std::cmp::Ordering::Less;
        } else if in1 > in2 {
            return std::cmp::Ordering::Greater;
        }
        // Compare the edge label and end_v_label for each connected edges of v1 and v2
        // Here, the incoming and outgoing edges are compared separately to deal with bidirectional edge case
        let v1_out = self.neighbour_pairs_of(v1_id, PatternDirection::Out);
        let v2_out = self.neighbour_pairs_of(v2_id, PatternDirection::Out);
        match pairs_cmp(&v1_out, &v2_out) {
            std::cmp::Ordering::Less => return std::cmp::Ordering::Less,
            std::cmp::Ordering::Greater => return std::cmp::Ordering::Greater,
            std::cmp::Ordering::Equal => {},
        }
        let v1_in = self.neighbour_pairs_of(v1_id, PatternDirection::In);
        let v2_in = self.neighbour_pairs_of(v2_id, PatternDirection::In);
        pairs_cmp(&v1_in, &v2_in)
    }
}

} // verus!

verus! {

/// The rank that the initial ranking gives vertex `v`: how many of the vertices listed under
/// its label come strictly before it by `initial_order`.
pub open spec fn initial_rank(p: PatternView, v: PatternId) -> int {
    p.vertex_label_map[p.vertices[v].label].filter(|u: PatternId| initial_order(p, u, v) == -1).len() as int
}

impl Pattern {
    /// Whether vertex `u` comes strictly before vertex `v` in the initial ranking.
    fn precedes_initially(&self, u: PatternId, v: PatternId) -> (before: bool)
        requires
            connections_resolve(self@),
            self@.vertices.contains_key(u),
            self@.vertices.contains_key(v),
        ensures
            before == (initial_order(self@, u, v) == -1),
    {
        match self.cmp_vertices_for_initial_rank(u, v) {
            std::cmp::Ordering::Less => true,
            _ => false,
        }
    }

    /// How many of `members` come strictly before vertex `v` in the initial ranking.
    fn count_initially_before(&self, members: &Vec<PatternId>, v: PatternId) -> (count: PatternRankId)
        requires
            connections_resolve(self@),
            self@.vertices.contains_key(v),
            strictly_increasing(members@),
            members@.len() <= i32::MAX,
            forall|k: int| 0 <= k < members@.len() ==> self@.vertices.contains_key(#[trigger] members@[k]),
        ensures
            count == members@.to_set().filter(|u: PatternId| initial_order(self@, u, v) == -1).len(),
    {
        broadcast use vstd::seq_lib::group_seq_properties;
        broadcast use vstd::set::group_set_axioms;
        let ghost pred = |u: PatternId| initial_order(self@, u, v) == -1;
        let mut count: PatternRankId = 0;
        assert(members@.take(0).to_set().filter(pred) =~= Set::<PatternId>::empty());
        for i in 0..members.len()
            invariant
                connections_resolve(self@),
                self@.vertices.contains_key(v),
                strictly_increasing(members@),
                members@.len() <= i32::MAX,
                forall|k: int| 0 <= k < members@.len() ==> self@.vertices.contains_key(#[trigger] members@[k]),
                pred == (|u: PatternId| initial_order(self@, u, v) == -1),
                count <= i,
                count == members@.take(i as int).to_set().filter(pred).len(),
                members@.take(i as int).to_set().filter(pred).finite(),
        {
            let u = members[i];
            let ghost before = members@.take(i as int).to_set().filter(pred);
            assert(members@.take(i + 1) == members@.take(i as int).push(u));
            proof {
                members@.take(i as int).lemma_push_to_set_commute(u);
            }
            assert(!members@.take(i as int).to_set().contains(u)) by {
                if members@.take(i as int).to_set().contains(u) {
                    let k = choose|k: int| 0 <= k < i && members@.take(i as int)[k] == u;
                    assert(members@[k] < members@[i as int]);
                }
            }
            if self.precedes_initially(u, v) {
                assert(members@.take(i + 1).to_set().filter(pred) =~= before.insert(u));
                count = count + 1;
            } else {
                assert(members@.take(i + 1).to_set().filter(pred) =~= before);
            }
        }
        proof {
            assert(members@.take(members@.len() as int) == members@);
        }
        count
    }

    /// ### Step-1: Set Initial Indices
    /// Set Initial Vertex Index Based on Comparison of Labels and In/Out Degrees: a vertex's
    /// rank is how many vertices of its label come strictly before it, so that vertices that
    /// compare equal share a rank and still occupy a place each (eg: 0, 0, 2, 2, 2, 5)
    pub fn set_initial_rank(&mut self)
        requires
            ranking_ready(old(self)@),
            old(self)@.vertices.dom().finite(),
            old(self)@.vertices.dom().len() <= i32::MAX,
        ensures
            final(self)@.edges == old(self)@.edges,
            final(self)@.edge_label_map == old(self)@.edge_label_map,
            final(self)@.vertex_label_map == old(self)@.vertex_label_map,
            final(self)@.vertices.dom() == old(self)@.vertices.dom(),
            forall|v: PatternId| #[trigger] old(self)@.vertices.contains_key(v) ==> final(self)@.vertices[v] == (PatternVertexView {
                rank: initial_rank(old(self)@, v) as PatternRankId,
                ..old(self)@.vertices[v]
            }),
    {
        broadcast use vstd::std_specs::btree::group_btree_axioms;
        proof {
            lemma_i32_keys_ordered();
        }
        let ghost p = self@;
        let labels = map_keys(&self.vertex_label_map);
        // The ranks are computed first, from the pattern as it is, and set afterwards
        let mut new_ranks: Vec<(PatternId, PatternRankId)> = Vec::new();
        let mut li: usize = 0;
        while li < labels.len()
            invariant
                li <= labels@.len(),
                self@ == p,
                ranking_ready(p),
                p.vertices.dom().finite(),
                p.vertices.dom().len() <= i32::MAX,
                strictly_increasing(labels@),
                forall|l: PatternLabelId| self.vertex_label_map@.contains_key(l) <==> #[trigger] labels@.contains(l),
                forall|k: int| 0 <= k < new_ranks@.len() ==> {
                    &&& p.vertices.contains_key(#[trigger] new_ranks@[k].0)
                    &&& new_ranks@[k].1 == initial_rank(p, new_ranks@[k].0)
                    &&& exists|m: int| 0 <= m < li && labels@[m] == p.vertices[new_ranks@[k].0].label
                },
                forall|v: PatternId| #[trigger] p.vertices.contains_key(v) && (exists|m: int| 0 <= m < li && labels@[m] == p.vertices[v].label) ==> exists|k: int| 0 <= k < new_ranks@.len() && new_ranks@[k].0 == v,
            decreases labels@.len() - li,
        {
            let label = labels[li];
            assert(labels@.contains(label));
            let vertex_set = match self.vertex_label_map.get(&label) {
                Some(vertex_set) => vertex_set,
                None => {
                    assert(false);
                    return;
                },
            };
            assert(p.vertex_label_map.contains_key(label) && p.vertex_label_map[label] == vertex_set@);
            let members = set_items(vertex_set);
            proof {
                assert(vertex_set@.subset_of(p.vertices.dom()));
                vstd::set_lib::lemma_len_subset(vertex_set@, p.vertices.dom());
                assert(members@.to_set() =~= vertex_set@);
            }
            let ghost base = new_ranks@;
            for vi in 0..members.len()
                invariant
                    self@ == p,
                    ranking_ready(p),
                    p.vertex_label_map.contains_key(label),
                    p.vertex_label_map[label] == vertex_set@,
                    members@.to_set() == vertex_set@,
                    strictly_increasing(members@),
                    members@.len() <= i32::MAX,
                    forall|v: PatternId| vertex_set@.contains(v) <==> #[trigger] members@.contains(v),
                    label == labels@[li as int],
                    li < labels@.len(),
                    new_ranks@.len() == base.len() + vi,
                    forall|k: int| 0 <= k < base.len() ==> new_ranks@[k] == #[trigger] base[k],
                    forall|k: int| 0 <= k < vi ==> #[trigger] new_ranks@[base.len() + k].0 == members@[k],
                    forall|k: int| 0 <= k < new_ranks@.len() ==> {
                        &&& p.vertices.contains_key(#[trigger] new_ranks@[k].0)
                        &&& new_ranks@[k].1 == initial_rank(p, new_ranks@[k].0)
                        &&& exists|m: int| 0 <= m < li + 1 && labels@[m] == p.vertices[new_ranks@[k].0].label
                    },
            {
                let v = members[vi];
                assert(members@.contains(v));
                assert forall|k: int| 0 <= k < members@.len() implies self@.vertices.contains_key(#[trigger] members@[k]) by {
                    assert(members@.contains(members@[k]));
                }
                let count = self.count_initially_before(&members, v);
                new_ranks.push((v, count));
            }
            proof {
                assert forall|k: int| 0 <= k < new_ranks@.len() implies {
                    &&& p.vertices.contains_key(#[trigger] new_ranks@[k].0)
                    &&& new_ranks@[k].1 == initial_rank(p, new_ranks@[k].0)
                    &&& exists|m: int| 0 <= m < li + 1 && labels@[m] == p.vertices[new_ranks@[k].0].label
                } by {
                }
                assert forall|v: PatternId| #[trigger] p.vertices.contains_key(v) && (exists|m: int| 0 <= m < li + 1 && labels@[m] == p.vertices[v].label) implies exists|k: int| 0 <= k < new_ranks@.len() && new_ranks@[k].0 == v by {
                    let m = choose|m: int| 0 <= m < li + 1 && labels@[m] == p.vertices[v].label;
                    if m < li {
                        let k = choose|k: int| 0 <= k < base.len() && base[k].0 == v;
                        assert(new_ranks@[k] == base[k]);
                    } else {
                        assert(vertex_set@.contains(v));
                        assert(members@.contains(v));
                        let k = choose|k: int| 0 <= k < members@.len() && members@[k] == v;
                        assert(new_ranks@[base.len() + k].0 == v);
                    }
                }
            }
            li = li + 1;
        }
        // Set the computed ranks
        for k in 0..new_ranks.len()
            invariant
                ranking_ready(p),
                forall|j: int| 0 <= j < new_ranks@.len() ==> {
                    &&& p.vertices.contains_key(#[trigger] new_ranks@[j].0)
                    &&& new_ranks@[j].1 == initial_rank(p, new_ranks@[j].0)
                },
                self@.edges == p.edges,
                self@.edge_label_map == p.edge_label_map,
                self@.vertex_label_map == p.vertex_label_map,
                self@.vertices.dom() == p.vertices.dom(),
                forall|v: PatternId| #[trigger] p.vertices.contains_key(v) ==> self@.vertices[v] == (PatternVertexView {
                    rank: if exists|j: int| 0 <= j < k && new_ranks@[j].0 == v { initial_rank(p, v) as PatternRankId } else { p.vertices[v].rank },
                    ..p.vertices[v]
                }),
        {
            let (v, rank) = new_ranks[k];
            proof {
                lemma_vertices_view_insert();
            }
            match self.get_vertex_mut_from_id(v) {
                Some(vertex) => {
                    vertex.set_rank(rank);
                },
                None => {},
            }
            proof {
                assert forall|w: PatternId| #[trigger] p.vertices.contains_key(w) implies self@.vertices[w] == (PatternVertexView {
                    rank: if exists|j: int| 0 <= j < k + 1 && new_ranks@[j].0 == w { initial_rank(p, w) as PatternRankId } else { p.vertices[w].rank },
                    ..p.vertices[w]
                }) by {
                    if w == v {
                        assert(new_ranks@[k as int].0 == w);
                    } else if exists|j: int| 0 <= j < k + 1 && new_ranks@[j].0 == w {
                        let j = choose|j: int| 0 <= j < k + 1 && new_ranks@[j].0 == w;
                        assert(j < k);
                    }
                }
                assert(self@.vertices.dom() =~= p.vertices.dom());
            }
        }
        proof {
            assert forall|v: PatternId| #[trigger] p.vertices.contains_key(v) implies exists|j: int| 0 <= j < new_ranks@.len() && new_ranks@[j].0 == v by {
                assert(labels@.contains(p.vertices[v].label));
                let m = choose|m: int| 0 <= m < labels@.len() && labels@[m] == p.vertices[v].label;
            }
        }
    }
}

} // verus!

verus! {

/// The vertices listed under `label` with rank `rank` are vertices of the pattern with that
/// label and rank, finitely many, and `equivalent_vertices` lists each of them once.
proof fn lemma_equivalent_vertices(p: PatternView, label: PatternLabelId, rank: PatternRankId)
    requires
        ranking_ready(p),
        p.vertices.dom().finite(),
    ensures
        equivalent_vertex_set(p, label, rank).finite(),
        equivalent_vertex_set(p, label, rank).subset_of(p.vertices.dom()),
        equivalent_vertices(p, label, rank).to_set() == equivalent_vertex_set(p, label, rank),
        strictly_increasing(equivalent_vertices(p, label, rank)),
        equivalent_vertices(p, label, rank).len() == equivalent_vertex_set(p, label, rank).len(),
        forall|v: PatternId| #[trigger] equivalent_vertex_set(p, label, rank).contains(v) ==> {
            &&& p.vertices.contains_key(v)
            &&& p.vertices[v].label == label
            &&& p.vertices[v].rank == rank
        },
{
    let set = equivalent_vertex_set(p, label, rank);
    assert(set.subset_of(p.vertices.dom()));
    vstd::set_lib::lemma_len_subset(set, p.vertices.dom());
    lemma_sorted_ints_exists(set);
    let s = equivalent_vertices(p, label, rank);
    assert(s.no_duplicates()) by {
        assert forall|i: int, j: int| 0 <= i < s.len() && 0 <= j < s.len() && i != j implies s[i] != s[j] by {
            if i < j {
                assert(s[i] < s[j]);
            } else {
                assert(s[j] < s[i]);
            }
        }
    }
    s.unique_seq_to_set();
}

impl Pattern {
    /// The groups of two or more vertices that share a label and a rank: label by label and
    /// rank by rank in increasing order, each group by increasing id.
    fn get_same_rank_vertex_groups(&self) -> (groups: Vec<Vec<PatternId>>)
        requires
            ranking_ready(self@),
            self@.vertices.dom().finite(),
        ensures
            forall|g: int| 0 <= g < groups@.len() ==> {
                &&& (#[trigger] groups@[g])@.len() > 1
                &&& self@.vertices.contains_key(groups@[g]@[0])
                &&& groups@[g]@ == equivalent_vertices(self@, self@.vertices[groups@[g]@[0]].label, self@.vertices[groups@[g]@[0]].rank)
            },
            forall|g1: int, g2: int| 0 <= g1 < g2 < groups@.len() ==> {
                ||| self@.vertices[(#[trigger] groups@[g1])@[0]].label != self@.vertices[(#[trigger] groups@[g2])@[0]].label
                ||| self@.vertices[groups@[g1]@[0]].rank != self@.vertices[groups@[g2]@[0]].rank
            },
            groups_view(groups@) == rank_groups(self@),
    {
        broadcast use vstd::std_specs::btree::group_btree_axioms;
        proof {
            lemma_i32_keys_ordered();
        }
        let ghost p = self@;
        let mut same_rank_vertex_groups: Vec<Vec<PatternId>> = Vec::new();
        let ghost mut keys: Seq<(PatternLabelId, PatternRankId)> = Seq::empty();
        let labels = map_keys(&self.vertex_label_map);
        for li in 0..labels.len()
            invariant
                self@ == p,
                ranking_ready(p),
                p.vertices.dom().finite(),
                strictly_increasing(labels@),
                forall|l: PatternLabelId| self.vertex_label_map@.contains_key(l) <==> #[trigger] labels@.contains(l),
                keys.len() == same_rank_vertex_groups@.len(),
                forall|g: int| 0 <= g < keys.len() ==> {
                    &&& (#[trigger] same_rank_vertex_groups@[g])@.len() > 1
                    &&& same_rank_vertex_groups@[g]@ == equivalent_vertices(p, keys[g].0, keys[g].1)
                    &&& labels@.take(li as int).contains(keys[g].0)
                },
                crate::ir::catalogue::collections::pairs_strictly_increasing(keys),
                forall|k: (PatternLabelId, PatternRankId)| #[trigger] shared_rank_keys(p).contains(k) && labels@.take(li as int).contains(k.0) ==> keys.contains(k),
        {
            let label = labels[li];
            let ghost keys_before = keys;
            let vertex_set = match self.vertex_label_map.get(&label) {
                Some(vertex_set) => vertex_set,
                None => {
                    assert(labels@.contains(label));
                    assert(false);
                    return same_rank_vertex_groups;
                },
            };
            let members = set_items(vertex_set);
            // The ranks that the vertices of this label have
            let mut rank_set: BTreeSet<PatternRankId> = BTreeSet::new();
            assert(members@.take(0) =~= Seq::<PatternId>::empty());
            let mut vi: usize = 0;
            while vi < members.len()
                invariant
                    self@ == p,
                    vi <= members@.len(),
                    forall|v: PatternId| #[trigger] members@.take(vi as int).contains(v) && p.vertices.contains_key(v) ==> rank_set@.contains(p.vertices[v].rank),
                decreases members@.len() - vi,
            {
                let ghost before = rank_set@;
                let u = members[vi];
                if let Some(vertex) = self.vertices.get(&u) {
                    assert(p.vertices.contains_key(u) && p.vertices[u].rank == vertex.rank);
                    rank_set.insert(vertex.rank);
                } else {
                    assert(!p.vertices.contains_key(u));
                }
                proof {
                    assert forall|x: PatternRankId| before.contains(x) implies rank_set@.contains(x) by {}
                    assert forall|v: PatternId| #[trigger] members@.take(vi + 1).contains(v) && p.vertices.contains_key(v) implies rank_set@.contains(p.vertices[v].rank) by {
                        let m = choose|m: int| 0 <= m < vi + 1 && #[trigger] members@.take(vi + 1)[m] == v;
                        if m < vi {
                            assert(members@.take(vi as int)[m] == v);
                            assert(members@.take(vi as int).contains(v));
                            assert(before.contains(p.vertices[v].rank));
                        } else {
                            assert(v == u);
                        }
                    }
                }
                vi = vi + 1;
            }
            proof {
                assert(members@.take(members@.len() as int) == members@);
            }
            let ranks = set_items(&rank_set);
            assert forall|g: int| 0 <= g < keys_before.len() implies labels@.take(li as int).contains(#[trigger] keys_before[g].0) by {
                assert(same_rank_vertex_groups@[g]@.len() > 1);
            }
            let mut ri: usize = 0;
            while ri < ranks.len()
                invariant
                    ri <= ranks@.len(),
                    self@ == p,
                    ranking_ready(p),
                    p.vertices.dom().finite(),
                    strictly_increasing(labels@),
                    strictly_increasing(ranks@),
                    label == labels@[li as int],
                    li < labels@.len(),
                    keys.len() == same_rank_vertex_groups@.len(),
                    keys_before.len() <= keys.len(),
                    forall|g: int| 0 <= g < keys_before.len() ==> keys[g] == #[trigger] keys_before[g],
                    forall|g: int| 0 <= g < keys_before.len() ==> labels@.take(li as int).contains(#[trigger] keys_before[g].0),
                    forall|g: int| keys_before.len() <= g < keys.len() ==> (#[trigger] keys[g]).0 == label && exists|m: int| 0 <= m < ri && ranks@[m] == keys[g].1,
                    forall|g: int| 0 <= g < keys.len() ==> {
                        &&& (#[trigger] same_rank_vertex_groups@[g])@.len() > 1
                        &&& same_rank_vertex_groups@[g]@ == equivalent_vertices(p, keys[g].0, keys[g].1)
                    },
                    crate::ir::catalogue::collections::pairs_strictly_increasing(keys),
                    forall|k: (PatternLabelId, PatternRankId)| #[trigger] shared_rank_keys(p).contains(k) && labels@.take(li as int).contains(k.0) ==> keys.contains(k),
                    forall|r: PatternRankId| #[trigger] ranks@.take(ri as int).contains(r) && shared_rank_keys(p).contains((label, r)) ==> keys.contains((label, r)),
                decreases ranks@.len() - ri,
            {
                let rank = ranks[ri];
                let ghost keys_iter = keys;
                let group = self.get_equivalent_vertices(label, rank);
                if group.len() > 1 {
                    let ghost keys_prev = keys;
                    proof {
                        keys = keys.push((label, rank));
                        assert forall|a: int, b: int| 0 <= a < b < keys.len() implies crate::ir::catalogue::collections::pair_lt(keys[a], keys[b]) by {
                            if b == keys.len() - 1 {
                                if a < keys_before.len() {
                                    assert(keys[a] == keys_before[a]);
                                    assert(labels@.take(li as int).contains(keys_before[a].0));
                                    let m = choose|m: int| 0 <= m < li && labels@.take(li as int)[m] == keys_before[a].0;
                                    assert(labels@[m] < labels@[li as int]);
                                } else {
                                    assert(keys[a] == keys_prev[a]);
                                    let m = choose|m: int| 0 <= m < ri && ranks@[m] == keys_prev[a].1;
                                    assert(ranks@[m] < ranks@[ri as int]);
                                }
                            } else {
                                assert(keys[a] == keys_prev[a] && keys[b] == keys_prev[b]);
                            }
                        }
                    }
                    same_rank_vertex_groups.push(group);
                    proof {
                        assert forall|g: int| keys_before.len() <= g < keys.len() implies (#[trigger] keys[g]).0 == label && exists|m: int| 0 <= m < ri + 1 && ranks@[m] == keys[g].1 by {
                            if g < keys.len() - 1 {
                                assert(keys[g] == keys_prev[g]);
                                let m = choose|m: int| 0 <= m < ri && ranks@[m] == keys_prev[g].1;
                            } else {
                                assert(ranks@[ri as int] == keys[g].1);
                            }
                        }
                    }
                }
                proof {
                    lemma_equivalent_vertices(p, label, rank);
                    assert forall|k: (PatternLabelId, PatternRankId)| #[trigger] keys_iter.contains(k) implies keys.contains(k) by {
                        let m = choose|m: int| 0 <= m < keys_iter.len() && keys_iter[m] == k;
                        assert(keys[m] == k);
                    }
                    assert forall|r: PatternRankId| #[trigger] ranks@.take(ri + 1).contains(r) && shared_rank_keys(p).contains((label, r)) implies keys.contains((label, r)) by {
                        let m = choose|m: int| 0 <= m < ri + 1 && #[trigger] ranks@.take(ri + 1)[m] == r;
                        if m < ri {
                            assert(ranks@.take(ri as int)[m] == r);
                            assert(ranks@.take(ri as int).contains(r));
                            assert(keys_iter.contains((label, r)));
                        } else {
                            assert(r == rank);
                            assert(keys[keys.len() - 1] == (label, rank));
                        }
                    }
                }
                ri = ri + 1;
            }
            proof {
                assert forall|k: (PatternLabelId, PatternRankId)| #[trigger] shared_rank_keys(p).contains(k) && labels@.take(li + 1).contains(k.0) implies keys.contains(k) by {
                    if labels@.take(li as int).contains(k.0) {
                    } else {
                        let m = choose|m: int| 0 <= m < li + 1 && #[trigger] labels@.take(li + 1)[m] == k.0;
                        if m < li {
                            assert(labels@.take(li as int)[m] == k.0);
                        }
                        assert(k.0 == label);
                        lemma_equivalent_vertices(p, k.0, k.1);
                        let es = equivalent_vertex_set(p, k.0, k.1);
                        vstd::set::axiom_set_choose_len(es);
                        let v = es.choose();
                        assert(members@.contains(v));
                        assert(members@.take(members@.len() as int).contains(v));
                        assert(rank_set@.contains(k.1));
                        assert(ranks@.contains(k.1));
                        assert(ranks@.take(ranks@.len() as int) == ranks@);
                        assert(ranks@.take(ri as int).contains(k.1));
                    }
                }
            }
            proof {
                assert forall|g: int| 0 <= g < keys.len() implies labels@.take(li + 1).contains((#[trigger] keys[g]).0) by {
                    if g < keys_before.len() {
                        assert(keys[g] == keys_before[g]);
                        let m = choose|m: int| 0 <= m < li && labels@.take(li as int)[m] == keys_before[g].0;
                        assert(labels@.take(li + 1)[m] == keys[g].0);
                    } else {
                        assert(labels@.take(li + 1)[li as int] == label);
                    }
                }
            }
        }
        proof {
            assert forall|g: int| 0 <= g < same_rank_vertex_groups@.len() implies {
                &&& (#[trigger] same_rank_vertex_groups@[g])@.len() > 1
                &&& self@.vertices.contains_key(same_rank_vertex_groups@[g]@[0])
                &&& same_rank_vertex_groups@[g]@ == equivalent_vertices(self@, self@.vertices[same_rank_vertex_groups@[g]@[0]].label, self@.vertices[same_rank_vertex_groups@[g]@[0]].rank)
            } by {
                lemma_equivalent_vertices(p, keys[g].0, keys[g].1);
                let s = equivalent_vertices(p, keys[g].0, keys[g].1);
                assert(same_rank_vertex_groups@[g]@ == s);
                assert(s.to_set().contains(s[0]));
            }
            assert forall|g1: int, g2: int| 0 <= g1 < g2 < same_rank_vertex_groups@.len() implies {
                ||| self@.vertices[(#[trigger] same_rank_vertex_groups@[g1])@[0]].label != self@.vertices[(#[trigger] same_rank_vertex_groups@[g2])@[0]].label
                ||| self@.vertices[same_rank_vertex_groups@[g1]@[0]].rank != self@.vertices[same_rank_vertex_groups@[g2]@[0]].rank
            } by {
                lemma_equivalent_vertices(p, keys[g1].0, keys[g1].1);
                lemma_equivalent_vertices(p, keys[g2].0, keys[g2].1);
                let s1 = equivalent_vertices(p, keys[g1].0, keys[g1].1);
                let s2 = equivalent_vertices(p, keys[g2].0, keys[g2].1);
                assert(same_rank_vertex_groups@[g1]@ == s1);
                assert(same_rank_vertex_groups@[g2]@ == s2);
                assert(s1.to_set().contains(s1[0]));
                assert(s2.to_set().contains(s2[0]));
                assert(crate::ir::catalogue::collections::pair_lt(keys[g1], keys[g2]));
            }
            assert(labels@.take(labels@.len() as int) == labels@);
            assert(keys.to_set() =~= shared_rank_keys(p)) by {
                assert forall|k: (PatternLabelId, PatternRankId)| keys.to_set().contains(k) implies #[trigger] shared_rank_keys(p).contains(k) by {
                    let g = choose|g: int| 0 <= g < keys.len() && keys[g] == k;
                    lemma_equivalent_vertices(p, k.0, k.1);
                    assert(same_rank_vertex_groups@[g]@.len() > 1);
                }
                assert forall|k: (PatternLabelId, PatternRankId)| #[trigger] shared_rank_keys(p).contains(k) implies keys.to_set().contains(k) by {
                    lemma_equivalent_vertices(p, k.0, k.1);
                    let es = equivalent_vertex_set(p, k.0, k.1);
                    vstd::set::axiom_set_choose_len(es);
                    assert(self.vertex_label_map@.contains_key(k.0));
                    assert(labels@.contains(k.0));
                    assert(keys.contains(k));
                }
            }
            crate::ir::catalogue::collections::lemma_sorted_pairs_is(keys);
            assert(groups_view(same_rank_vertex_groups@) =~= rank_groups(p)) by {
                assert forall|g: int| 0 <= g < keys.len() implies #[trigger] groups_view(same_rank_vertex_groups@)[g] == rank_groups(p)[g] by {
                    assert(same_rank_vertex_groups@[g]@ == equivalent_vertices(p, keys[g].0, keys[g].1));
                }
            }
        }
        same_rank_vertex_groups
    }
}

} // verus!

verus! {

/// The keys of a visited map that are not marked visited.
pub open spec fn unvisited(m: Map<PatternId, bool>) -> Set<PatternId> {
    m.dom().filter(|k: PatternId| !m[k])
}

/// Every vertex listed in the neighbour map is one of `ids`.
pub open spec fn neighbours_in(ids: Set<PatternId>, m: Map<PatternId, Vec<PatternId>>) -> bool {
    forall|v: PatternId, k: int| #[trigger] m.contains_key(v) && 0 <= k < m[v]@.len() ==> ids.contains(#[trigger] m[v]@[k])
}

/// Whether `v` is marked visited.
pub open spec fn marked(vis: Map<PatternId, bool>, v: PatternId) -> bool {
    vis.contains_key(v) && vis[v]
}

/// The lists of a map of neighbour lists, as sequences.
pub open spec fn lists_view(m: Map<PatternId, Vec<PatternId>>) -> Map<PatternId, Seq<PatternId>> {
    m.map_values(|l: Vec<PatternId>| l@)
}

/// The neighbour list that the map holds for `v`, or none.
pub open spec fn neighbour_list(nb: Map<PatternId, Seq<PatternId>>, v: PatternId) -> Seq<PatternId> {
    if nb.contains_key(v) {
        nb[v]
    } else {
        Seq::empty()
    }
}

/// The length of the shorter of the neighbour lists of `v1` and `v2`.
pub open spec fn common_len(nb: Map<PatternId, Seq<PatternId>>, v1: PatternId, v2: PatternId) -> int {
    let a = neighbour_list(nb, v1).len();
    let b = neighbour_list(nb, v2).len();
    if a < b {
        a as int
    } else {
        b as int
    }
}

/// `neighbours_walk` from the position `i` of a list.
pub open spec fn neighbours_walk_at(
    p: PatternView,
    nb: Map<PatternId, Seq<PatternId>>,
    v1: PatternId,
    v2: PatternId,
    i: usize,
    vis: Map<PatternId, bool>,
    budget: nat,
) -> (int, Map<PatternId, bool>) {
    neighbours_walk(p, nb, v1, v2, i as int, vis, budget)
}

/// One less than `n`, or none where `n` is none.
pub open spec fn one_less(n: nat) -> nat {
    if n == 0 {
        0
    } else {
        (n - 1) as nat
    }
}

/// How the depth-first comparison orders `v1` and `v2` (-1, 0 or 1), with the visited marks
/// after it, starting from the marks `vis` and allowed `budget` levels of nested comparisons:
/// equal where they are the same vertex; by rank where the ranks differ; equal where both are
/// marked; otherwise both are marked and their neighbours are compared in turn.
pub open spec fn accurate_walk(
    p: PatternView,
    nb: Map<PatternId, Seq<PatternId>>,
    v1: PatternId,
    v2: PatternId,
    vis: Map<PatternId, bool>,
    budget: nat,
) -> (int, Map<PatternId, bool>)
    decreases budget, 0int, 0int,
{
    if v1 == v2 {
        (0, vis)
    } else if p.vertices[v1].rank > p.vertices[v2].rank {
        (1, vis)
    } else if p.vertices[v1].rank < p.vertices[v2].rank {
        (-1, vis)
    } else if marked(vis, v1) && marked(vis, v2) {
        (0, vis)
    } else if budget == 0 {
        (0, vis)
    } else {
        neighbours_walk(p, nb, v1, v2, 0, vis.insert(v1, true).insert(v2, true), one_less(budget))
    }
}

/// The comparison of the neighbours of `v1` and `v2`, position by position from `i` over the
/// common length of their lists: a pair both marked is skipped; the first pair found unequal
/// decides, and `v1` and `v2` are unmarked; equal where no pair differs.
pub open spec fn neighbours_walk(
    p: PatternView,
    nb: Map<PatternId, Seq<PatternId>>,
    v1: PatternId,
    v2: PatternId,
    i: int,
    vis: Map<PatternId, bool>,
    budget: nat,
) -> (int, Map<PatternId, bool>)
    decreases budget, 1int, common_len(nb, v1, v2) - i,
{
    if i < 0 || i >= common_len(nb, v1, v2) {
        (0, vis)
    } else {
        let a = neighbour_list(nb, v1)[i];
        let b = neighbour_list(nb, v2)[i];
        if marked(vis, a) && marked(vis, b) {
            neighbours_walk(p, nb, v1, v2, i + 1, vis, budget)
        } else {
            let r = accurate_walk(p, nb, a, b, vis, budget);
            if r.0 != 0 {
                (r.0, r.1.insert(v1, false).insert(v2, false))
            } else {
                neighbours_walk(p, nb, v1, v2, i + 1, r.1, budget)
            }
        }
    }
}

/// Whether the edges of `s` come in the order `edge_precedes` gives.
pub open spec fn edges_ordered(p: PatternView, s: Seq<PatternId>) -> bool {
    forall|a: int, b: int| 0 <= a < b < s.len() ==> edge_precedes(p, #[trigger] s[a], #[trigger] s[b])
}

/// The edges connected to vertex `v`, in the order `edge_precedes` gives.
pub open spec fn ordered_edges(p: PatternView, v: PatternId) -> Seq<PatternId> {
    choose|s: Seq<PatternId>| edges_ordered(p, s) && s.to_set() == p.vertices[v].connect_edges.dom()
}

/// The vertices at the other ends of the edges `es` of vertex `v`, in turn, where `v` connects
/// to them, with consecutive repeats dropped.
pub open spec fn targets_of(p: PatternView, v: PatternId, es: Seq<PatternId>) -> Seq<PatternId>
    decreases es.len(),
{
    if es.len() == 0 {
        Seq::empty()
    } else {
        let prev = targets_of(p, v, es.drop_last());
        let e = es.last();
        if p.vertices[v].connect_edges.contains_key(e) {
            let t = p.vertices[v].connect_edges[e].0;
            if prev.len() > 0 && prev.last() == t {
                prev
            } else {
                prev.push(t)
            }
        } else {
            prev
        }
    }
}

/// The neighbour list of vertex `v`: the vertices at the other ends of its edges in the order
/// `edge_precedes` gives, with consecutive repeats dropped.
pub open spec fn neighbours_of(p: PatternView, v: PatternId) -> Seq<PatternId> {
    targets_of(p, v, ordered_edges(p, v))
}

/// Two sequences of edges ordered by `edge_precedes` with the same members are equal.
proof fn lemma_edges_ordered_unique(p: PatternView, s1: Seq<PatternId>, s2: Seq<PatternId>)
    requires
        edges_ordered(p, s1),
        edges_ordered(p, s2),
        s1.to_set() == s2.to_set(),
    ensures
        s1 == s2,
    decreases s1.len(),
{
    lemma_edge_precedes_order(p);
    if s1.len() == 0 {
        if s2.len() > 0 {
            assert(s2.to_set().contains(s2[0]));
        }
    } else {
        assert(s1.to_set().contains(s1[0]));
        assert(s2.len() > 0);
        assert(s2.to_set().contains(s2[0]));
        let i1 = choose|i: int| 0 <= i < s1.len() && s1[i] == s2[0];
        let i2 = choose|i: int| 0 <= i < s2.len() && s2[i] == s1[0];
        if s1[0] != s2[0] {
            assert(edge_precedes(p, s1[0], s1[i1]));
            assert(edge_precedes(p, s2[0], s2[i2]));
            assert(edge_precedes(p, s1[0], s1[0]));
        }
        let t1 = s1.drop_first();
        let t2 = s2.drop_first();
        assert forall|x: PatternId| t1.to_set().contains(x) <==> t2.to_set().contains(x) by {
            if t1.to_set().contains(x) {
                let i = choose|i: int| 0 <= i < t1.len() && t1[i] == x;
                assert(s1[i + 1] == x);
                assert(s2.to_set().contains(x));
                let j = choose|j: int| 0 <= j < s2.len() && s2[j] == x;
                if j == 0 {
                    assert(edge_precedes(p, s1[0], s1[i + 1]));
                }
                assert(t2[j - 1] == x);
            }
            if t2.to_set().contains(x) {
                let i = choose|i: int| 0 <= i < t2.len() && t2[i] == x;
                assert(s2[i + 1] == x);
                assert(s1.to_set().contains(x));
                let j = choose|j: int| 0 <= j < s1.len() && s1[j] == x;
                if j == 0 {
                    assert(edge_precedes(p, s2[0], s2[i + 1]));
                }
                assert(t1[j - 1] == x);
            }
        }
        assert(t1.to_set() =~= t2.to_set());
        assert(edges_ordered(p, t1)) by {
            assert forall|a: int, b: int| 0 <= a < b < t1.len() implies edge_precedes(p, #[trigger] t1[a], #[trigger] t1[b]) by {
                assert(t1[a] == s1[a + 1] && t1[b] == s1[b + 1]);
            }
        }
        assert(edges_ordered(p, t2)) by {
            assert forall|a: int, b: int| 0 <= a < b < t2.len() implies edge_precedes(p, #[trigger] t2[a], #[trigger] t2[b]) by {
                assert(t2[a] == s2[a + 1] && t2[b] == s2[b + 1]);
            }
        }
        lemma_edges_ordered_unique(p, t1, t2);
        assert(s1 =~= s2) by {
            assert(s1 == seq![s1[0]] + t1);
            assert(s2 == seq![s2[0]] + t2);
        }
    }
}

/// The pairs of label and rank that more than one vertex shares.
pub open spec fn shared_rank_keys(p: PatternView) -> Set<(PatternLabelId, PatternRankId)> {
    Set::new(|k: (PatternLabelId, PatternRankId)| equivalent_vertex_set(p, k.0, k.1).len() > 1)
}

/// The groups of vertices that share a label and a rank, more than one to a group: ordered by
/// label, then by rank, each in increasing id order.
pub open spec fn rank_groups(p: PatternView) -> Seq<Seq<PatternId>> {
    sorted_pairs(shared_rank_keys(p)).map_values(|k: (PatternLabelId, PatternRankId)| equivalent_vertices(p, k.0, k.1))
}

/// The groups of a list of vertex groups, as sequences.
pub open spec fn groups_view(groups: Seq<Vec<PatternId>>) -> Seq<Seq<PatternId>> {
    groups.map_values(|g: Vec<PatternId>| g@)
}

impl Pattern {
    /// The vertices that `v_id` connects to, ordered by `edge_precedes` on the connecting
    /// edges, with consecutive repeats dropped.
    fn neighbour_vertices_of(&self, v_id: PatternId) -> (neighbours: Vec<PatternId>)
        requires
            ranking_ready(self@),
            edges_have_ends(self@),
            self@.vertices.contains_key(v_id),
        ensures
            forall|k: int| 0 <= k < neighbours@.len() ==> self@.vertices.contains_key(#[trigger] neighbours@[k]),
            neighbours@ == neighbours_of(self@, v_id),
    {
        broadcast use vstd::std_specs::btree::group_btree_axioms;
        proof {
            lemma_i32_keys_ordered();
        }
        let mut neighbours: Vec<PatternId> = Vec::new();
        let vertex = match self.vertices.get(&v_id) {
            Some(vertex) => vertex,
            None => return neighbours,
        };
        let ghost vv = self@.vertices[v_id];
        assert(vv == vertex@);
        let ids = map_keys(&vertex.connect_edges);
        assert forall|k: int| 0 <= k < ids@.len() implies self@.edges.contains_key(#[trigger] ids@[k]) by {
            assert(ids@.contains(ids@[k]));
            assert(vv.connect_edges.contains_key(ids@[k]));
        }
        let ordered = self.order_edge_ids(&ids);
        for i in 0..ordered.len()
            invariant
                ranking_ready(self@),
                self@.vertices.contains_key(v_id),
                vv == self@.vertices[v_id],
                vv == vertex@,
                forall|e: PatternId| ids@.contains(e) <==> #[trigger] ordered@.contains(e),
                forall|k: PatternId| vv.connect_edges.contains_key(k) <==> #[trigger] ids@.contains(k),
                forall|k: int| 0 <= k < neighbours@.len() ==> self@.vertices.contains_key(#[trigger] neighbours@[k]),
                neighbours@ == targets_of(self@, v_id, ordered@.take(i as int)),
        {
            let e = ordered[i];
            assert(ordered@.contains(e));
            proof {
                assert(ordered@.take(i + 1).drop_last() == ordered@.take(i as int));
                assert(ordered@.take(i + 1).last() == e);
            }
            if let Some(connection) = vertex.connect_edges.get(&e) {
                let target = connection.0;
                if neighbours.len() == 0 || neighbours[neighbours.len() - 1] != target {
                    neighbours.push(target);
                }
            }
        }
        proof {
            assert(ordered@.take(ordered@.len() as int) == ordered@);
            assert(ordered@.to_set() =~= vv.connect_edges.dom()) by {
                assert forall|e: PatternId| ordered@.to_set().contains(e) <==> vv.connect_edges.dom().contains(e) by {
                    if ordered@.to_set().contains(e) {
                        assert(ordered@.contains(e));
                    }
                    if vv.connect_edges.dom().contains(e) {
                        assert(ids@.contains(e));
                    }
                }
            }
            assert(edges_ordered(self@, ordered@));
            let chosen = ordered_edges(self@, v_id);
            assert(edges_ordered(self@, chosen) && chosen.to_set() == self@.vertices[v_id].connect_edges.dom());
            lemma_edges_ordered_unique(self@, ordered@, chosen);
        }
        neighbours
    }

    /// Whether a vertex is marked visited.
    fn is_visited(visited: &BTreeMap<PatternId, bool>, v_id: PatternId) -> (b: bool)
        ensures
            b == (visited@.contains_key(v_id) && visited@[v_id]),
    {
        broadcast use vstd::std_specs::btree::group_btree_axioms;
        proof {
            lemma_i32_keys_ordered();
        }
        match visited.get(&v_id) {
            Some(b) => *b,
            None => false,
        }
    }

    /// Compare two vertices of the same rank through their neighbours, depth first: vertices
    /// are marked visited on the way down and unmarked where a difference is found; two
    /// vertices both visited compare equal. A vertex that the neighbour map holds no list for
    /// has no neighbours, and where the two neighbour lists differ in length only their common
    /// prefix is compared.
    fn cmp_vertices_for_accurate_rank(
        &self,
        v1_id: PatternId,
        v2_id: PatternId,
        vertex_neighbor_info_map: &BTreeMap<PatternId, Vec<PatternId>>,
        visited_map: &mut BTreeMap<PatternId, bool>,
        Ghost(budget): Ghost<nat>,
    ) -> (order: std::cmp::Ordering)
        requires
            self@.vertices.dom().finite(),
            old(visited_map)@.dom() == self@.vertices.dom(),
            self@.vertices.contains_key(v1_id),
            self@.vertices.contains_key(v2_id),
            neighbours_in(self@.vertices.dom(), vertex_neighbor_info_map@),
            unvisited(old(visited_map)@).len() <= budget,
        ensures
            final(visited_map)@.dom() == old(visited_map)@.dom(),
            order == std::cmp::Ordering::Equal ==> unvisited(final(visited_map)@).subset_of(unvisited(old(visited_map)@)),
            final(visited_map)@ == accurate_walk(self@, lists_view(vertex_neighbor_info_map@), v1_id, v2_id, old(visited_map)@, budget).1,
            accurate_walk(self@, lists_view(vertex_neighbor_info_map@), v1_id, v2_id, old(visited_map)@, budget).0 == (match order {
                std::cmp::Ordering::Less => -1int,
                std::cmp::Ordering::Equal => 0int,
                std::cmp::Ordering::Greater => 1int,
            }),
        decreases unvisited(old(visited_map)@).len(),
    {
        broadcast use vstd::std_specs::btree::group_btree_axioms;
        proof {
            lemma_i32_keys_ordered();
        }
        let ghost entry = visited_map@;
        // Return Equal if the Two Vertices Have the Same Index
        if v1_id == v2_id {
            return std::cmp::Ordering::Equal;
        }
        // Compare their Indices
        let v1_rank = self.get_vertex_rank(v1_id);
        let v2_rank = self.get_vertex_rank(v2_id);
        if v1_rank > v2_rank {
            return std::cmp::Ordering::Greater;
        } else if v1_rank < v2_rank {
            return std::cmp::Ordering::Less;
        }
        // Return Equal if the Two Vertices Have Been Set As Visited
        if Self::is_visited(visited_map, v1_id) && Self::is_visited(visited_map, v2_id) {
            return std::cmp::Ordering::Equal;
        }
        // Set these two vertices as visited
        visited_map.insert(v1_id, true);
        visited_map.insert(v2_id, true);
        let ghost marked = visited_map@;
        proof {
            assert(visited_map@.dom() =~= entry.dom());
            assert(unvisited(marked) =~= unvisited(entry).remove(v1_id).remove(v2_id));
            assert(unvisited(entry).subset_of(entry.dom()));
            vstd::set_lib::lemma_len_subset(unvisited(entry), entry.dom());
            if unvisited(entry).contains(v1_id) {
                assert(unvisited(marked).subset_of(unvisited(entry).remove(v1_id)));
                vstd::set_lib::lemma_len_subset(unvisited(marked), unvisited(entry).remove(v1_id));
            } else {
                assert(unvisited(entry).contains(v2_id));
                assert(unvisited(marked).subset_of(unvisited(entry).remove(v2_id)));
                vstd::set_lib::lemma_len_subset(unvisited(marked), unvisited(entry).remove(v2_id));
            }
        }
        let no_neighbors: Vec<PatternId> = Vec::new();
        let v1_neighbor_info = match vertex_neighbor_info_map.get(&v1_id) {
            Some(info) => info,
            None => &no_neighbors,
        };
        let v2_neighbor_info = match vertex_neighbor_info_map.get(&v2_id) {
            Some(info) => info,
            None => &no_neighbors,
        };
        let neighbor_num: usize = if v1_neighbor_info.len() < v2_neighbor_info.len() {
            v1_neighbor_info.len()
        } else {
            v2_neighbor_info.len()
        };
        let ghost rest = one_less(budget);
        proof {
            assert(budget > 0);
            assert(accurate_walk(self@, lists_view(vertex_neighbor_info_map@), v1_id, v2_id, entry, budget)
                == neighbours_walk(self@, lists_view(vertex_neighbor_info_map@), v1_id, v2_id, 0, marked, rest));
        }
        let mut i: usize = 0;
        while i < neighbor_num
            invariant
                self@.vertices.dom().finite(),
                neighbours_in(self@.vertices.dom(), vertex_neighbor_info_map@),
                neighbor_num <= v1_neighbor_info@.len(),
                neighbor_num <= v2_neighbor_info@.len(),
                v1_neighbor_info@ == neighbour_list(lists_view(vertex_neighbor_info_map@), v1_id),
                v2_neighbor_info@ == neighbour_list(lists_view(vertex_neighbor_info_map@), v2_id),
                neighbor_num == common_len(lists_view(vertex_neighbor_info_map@), v1_id, v2_id),
                v1_id != v2_id,
                rest + 1 == budget,
                unvisited(marked).len() <= rest,
                neighbours_walk_at(self@, lists_view(vertex_neighbor_info_map@), v1_id, v2_id, i, visited_map@, rest)
                    == accurate_walk(self@, lists_view(vertex_neighbor_info_map@), v1_id, v2_id, entry, budget),
                forall|k: int| 0 <= k < v1_neighbor_info@.len() ==> self@.vertices.contains_key(#[trigger] v1_neighbor_info@[k]),
                forall|k: int| 0 <= k < v2_neighbor_info@.len() ==> self@.vertices.contains_key(#[trigger] v2_neighbor_info@[k]),
                visited_map@.dom() == entry.dom(),
                entry.dom() == self@.vertices.dom(),
                entry == old(visited_map)@,
                self@.vertices.contains_key(v1_id),
                self@.vertices.contains_key(v2_id),
                unvisited(visited_map@).subset_of(unvisited(marked)),
                unvisited(marked).len() < unvisited(entry).len(),
                unvisited(marked).finite(),
            decreases neighbor_num - i,
        {
            let v1_neighbor_vertex_id = v1_neighbor_info[i];
            let v2_neighbor_vertex_id = v2_neighbor_info[i];
            // Skip the steps below if the two neighbor vertices are visited
            if !(Self::is_visited(visited_map, v1_neighbor_vertex_id) && Self::is_visited(visited_map, v2_neighbor_vertex_id)) {
                proof {
                    vstd::set_lib::lemma_len_subset(unvisited(visited_map@), unvisited(marked));
                }
                let order = self.cmp_vertices_for_accurate_rank(
                    v1_neighbor_vertex_id,
                    v2_neighbor_vertex_id,
                    vertex_neighbor_info_map,
                    visited_map,
                    Ghost(rest),
                );
                match order {
                    std::cmp::Ordering::Greater => {
                        visited_map.insert(v1_id, false);
                        visited_map.insert(v2_id, false);
                        assert(visited_map@.dom() =~= entry.dom());
                        return std::cmp::Ordering::Greater;
                    },
                    std::cmp::Ordering::Less => {
                        visited_map.insert(v1_id, false);
                        visited_map.insert(v2_id, false);
                        assert(visited_map@.dom() =~= entry.dom());
                        return std::cmp::Ordering::Less;
                    },
                    std::cmp::Ordering::Equal => {},
                }
            }
            i = i + 1;
        }
        proof {
            assert(unvisited(marked).subset_of(unvisited(entry)));
        }
        // Return Equal if Still Cannot Distinguish
        std::cmp::Ordering::Equal
    }
}

} // verus!

verus! {

/// Vertex `v` of `p` keeps in `q` everything but its rank, and its rank in `q` is no lower than
/// in `p` and below its rank in `p` plus the number of vertices that shared that rank and label.
pub open spec fn rank_refined(p: PatternView, q: PatternView, v: PatternId) -> bool {
    &&& q.vertices.contains_key(v)
    &&& q.vertices[v] == (PatternVertexView { rank: q.vertices[v].rank, ..p.vertices[v] })
    &&& p.vertices[v].rank <= q.vertices[v].rank
    &&& q.vertices[v].rank < p.vertices[v].rank + equivalent_vertex_set(p, p.vertices[v].label, p.vertices[v].rank).len()
}

/// Every vertex of the pattern, none of them marked visited.
pub open spec fn fresh_marks(p: PatternView) -> Map<PatternId, bool> {
    Map::new(|v: PatternId| p.vertices.contains_key(v), |v: PatternId| false)
}

/// Whether `v` is in one of the groups `gs`, counting only the groups before `gi` and the
/// first `k` members of group `gi`.
pub open spec fn in_groups_before(gs: Seq<Seq<PatternId>>, gi: int, k: int, v: PatternId) -> bool {
    exists|g: int, m: int|
        0 <= g < gs.len() && 0 <= m < gs[g].len() && #[trigger] gs[g][m] == v && (g < gi || (g == gi && m < k))
}

/// The neighbour lists that the accurate ranking reads: those of the vertices of the groups
/// of `rank_groups`.
pub open spec fn group_neighbours(p: PatternView) -> Map<PatternId, Seq<PatternId>> {
    Map::new(
        |v: PatternId| in_groups_before(rank_groups(p), rank_groups(p).len() as int, 0, v),
        |v: PatternId| neighbours_of(p, v),
    )
}

/// The pattern with the rank of vertex `v` set to `r`.
pub open spec fn with_rank(q: PatternView, v: PatternId, r: PatternRankId) -> PatternView {
    PatternView { vertices: q.vertices.insert(v, PatternVertexView { rank: r, ..q.vertices[v] }), ..q }
}

/// The pattern and the visited marks once the pairs of positions of group `g` are compared
/// from pair (`i`, `j`) on, starting from the pattern `q`, the marks `vis` and the counted
/// ranks `acc`: each pair i < j in turn is compared by `accurate_walk` over the pattern and
/// marks as they are then; the later vertex counts one more where the earlier one is smaller,
/// the earlier one where it is greater; once vertex i has been compared with all after it, it
/// takes its count as its rank.
pub open spec fn group_ranked(
    q: PatternView,
    nb: Map<PatternId, Seq<PatternId>>,
    g: Seq<PatternId>,
    i: int,
    j: int,
    vis: Map<PatternId, bool>,
    acc: Seq<PatternRankId>,
) -> (PatternView, Map<PatternId, bool>)
    decreases g.len() - i, g.len() - j,
{
    if i < 0 || i >= g.len() {
        (q, vis)
    } else if j >= g.len() {
        group_ranked(with_rank(q, g[i], acc[i]), nb, g, i + 1, i + 2, vis, acc)
    } else {
        let r = accurate_walk(q, nb, g[i], g[j], vis, unvisited(vis).len());
        let acc2 = if r.0 < 0 {
            acc.update(j, (acc[j] + 1) as PatternRankId)
        } else if r.0 > 0 {
            acc.update(i, (acc[i] + 1) as PatternRankId)
        } else {
            acc
        };
        group_ranked(q, nb, g, i, j + 1, r.1, acc2)
    }
}

/// The pattern and the visited marks once the groups from `gi` on are ranked in turn, each
/// starting from the rank its vertices share.
pub open spec fn groups_ranked(
    q: PatternView,
    nb: Map<PatternId, Seq<PatternId>>,
    gs: Seq<Seq<PatternId>>,
    gi: int,
    vis: Map<PatternId, bool>,
) -> (PatternView, Map<PatternId, bool>)
    decreases gs.len() - gi,
{
    if gi < 0 || gi >= gs.len() {
        (q, vis)
    } else {
        let g = gs[gi];
        let r = group_ranked(q, nb, g, 0, 1, vis, Seq::new(g.len(), |k: int| q.vertices[g[0]].rank));
        groups_ranked(r.0, nb, gs, gi + 1, r.1)
    }
}

/// The pattern with every vertex ranked by `initial_rank`.
pub open spec fn initially_ranked(p: PatternView) -> PatternView {
    PatternView {
        vertices: Map::new(
            |v: PatternId| p.vertices.contains_key(v),
            |v: PatternId| PatternVertexView { rank: initial_rank(p, v) as PatternRankId, ..p.vertices[v] },
        ),
        ..p
    }
}

/// The pattern once the groups of vertices that share a label and a rank are ranked through
/// their neighbours, from no vertex marked visited.
pub open spec fn accurately_ranked(p: PatternView) -> PatternView {
    groups_ranked(p, group_neighbours(p), rank_groups(p), 0, fresh_marks(p)).0
}

/// Counting one more member of group `gi` adds that member.
proof fn lemma_in_groups_step(gs: Seq<Seq<PatternId>>, gi: int, k: int, x: PatternId)
    requires
        0 <= gi < gs.len(),
        0 <= k < gs[gi].len(),
    ensures
        in_groups_before(gs, gi, k + 1, x) <==> (in_groups_before(gs, gi, k, x) || x == gs[gi][k]),
{
    if in_groups_before(gs, gi, k + 1, x) && x != gs[gi][k] {
        let (g, m) = choose|g: int, m: int|
            0 <= g < gs.len() && 0 <= m < gs[g].len() && #[trigger] gs[g][m] == x && (g < gi || (g == gi && m < k + 1));
        assert(g < gi || (g == gi && m < k));
    }
    if x == gs[gi][k] {
        assert(gs[gi][k] == x);
    }
}

/// Counting every member of group `gi` is counting the groups up to it.
proof fn lemma_in_groups_next(gs: Seq<Seq<PatternId>>, gi: int, x: PatternId)
    requires
        0 <= gi < gs.len(),
    ensures
        in_groups_before(gs, gi, gs[gi].len() as int, x) <==> in_groups_before(gs, gi + 1, 0, x),
{
    if in_groups_before(gs, gi + 1, 0, x) {
        let (g, m) = choose|g: int, m: int|
            0 <= g < gs.len() && 0 <= m < gs[g].len() && #[trigger] gs[g][m] == x && (g < gi + 1 || (g == gi + 1 && m < 0));
        assert(g < gi || (g == gi && m < gs[gi].len()));
    }
}

impl Pattern {
    /// How `cmp_vertices_for_accurate_rank` orders two vertices: -1, 0 or 1.
    fn accurate_order(
        &self,
        v1_id: PatternId,
        v2_id: PatternId,
        vertex_neighbor_info_map: &BTreeMap<PatternId, Vec<PatternId>>,
        visited_map: &mut BTreeMap<PatternId, bool>,
    ) -> (order: i8)
        requires
            self@.vertices.dom().finite(),
            old(visited_map)@.dom() == self@.vertices.dom(),
            self@.vertices.contains_key(v1_id),
            self@.vertices.contains_key(v2_id),
            neighbours_in(self@.vertices.dom(), vertex_neighbor_info_map@),
        ensures
            final(visited_map)@.dom() == old(visited_map)@.dom(),
            accurate_walk(
                self@,
                lists_view(vertex_neighbor_info_map@),
                v1_id,
                v2_id,
                old(visited_map)@,
                unvisited(old(visited_map)@).len(),
            ).0 == order,
            accurate_walk(
                self@,
                lists_view(vertex_neighbor_info_map@),
                v1_id,
                v2_id,
                old(visited_map)@,
                unvisited(old(visited_map)@).len(),
            ).1 == final(visited_map)@,
    {
        let ghost budget = unvisited(visited_map@).len();
        match self.cmp_vertices_for_accurate_rank(v1_id, v2_id, vertex_neighbor_info_map, visited_map, Ghost(budget)) {
            std::cmp::Ordering::Less => -1,
            std::cmp::Ordering::Greater => 1,
            std::cmp::Ordering::Equal => 0,
        }
    }

    /// A visited map that holds every vertex, none of them visited.
    fn unvisited_map(&self) -> (visited_map: BTreeMap<PatternId, bool>)
        ensures
            visited_map@.dom() == self@.vertices.dom(),
            visited_map@ == fresh_marks(self@),
    {
        broadcast use vstd::std_specs::btree::group_btree_axioms;
        proof {
            lemma_i32_keys_ordered();
        }
        let ids = map_keys(&self.vertices);
        let mut visited_map: BTreeMap<PatternId, bool> = BTreeMap::new();
        for i in 0..ids.len()
            invariant
                forall|k: PatternId| #[trigger] visited_map@.contains_key(k) <==> ids@.take(i as int).contains(k),
                forall|k: PatternId| #[trigger] visited_map@.contains_key(k) ==> !visited_map@[k],
        {
            visited_map.insert(ids[i], false);
            proof {
                assert(ids@.take(i + 1) == ids@.take(i as int).push(ids@[i as int]));
                assert forall|k: PatternId| #[trigger] visited_map@.contains_key(k) <==> ids@.take(i + 1).contains(k) by {
                    if ids@.take(i as int).contains(k) {
                        let m = choose|m: int| 0 <= m < i && ids@.take(i as int)[m] == k;
                        assert(ids@.take(i + 1)[m] == k);
                    }
                    if ids@.take(i + 1).contains(k) && k != ids@[i as int] {
                        let m = choose|m: int| 0 <= m < i + 1 && #[trigger] ids@.take(i + 1)[m] == k;
                        assert(ids@.take(i as int)[m] == k);
                    }
                    if k == ids@[i as int] {
                        assert(ids@.take(i + 1)[i as int] == k);
                    }
                }
            }
        }
        proof {
            assert(ids@.take(ids@.len() as int) == ids@);
            assert forall|k: PatternId| visited_map@.contains_key(k) <==> self@.vertices.dom().contains(k) by {
                assert(self.vertices@.contains_key(k) == self@.vertices.contains_key(k));
            }
            assert(visited_map@.dom() =~= self@.vertices.dom());
            assert(visited_map@ =~= fresh_marks(self@));
        }
        visited_map
    }

    /// ### Step-2: Set Accurate Indices
    /// Set Accurate Indices According to the Initial Indices Set in Step-1: within each group of
    /// vertices that share a label and a rank, a vertex's rank grows by one for each vertex of
    /// the group found smaller than it through the neighbour-by-neighbour comparison
    fn set_accurate_rank(&mut self)
        requires
            ranking_ready(old(self)@),
            edges_have_ends(old(self)@),
            old(self)@.vertices.dom().finite(),
            forall|v: PatternId| #[trigger] old(self)@.vertices.contains_key(v) ==> old(self)@.vertices[v].rank + equivalent_vertex_set(
                old(self)@,
                old(self)@.vertices[v].label,
                old(self)@.vertices[v].rank,
            ).len() <= i32::MAX + 1,
        ensures
            final(self)@.edges == old(self)@.edges,
            final(self)@.edge_label_map == old(self)@.edge_label_map,
            final(self)@.vertex_label_map == old(self)@.vertex_label_map,
            final(self)@.vertices.dom() == old(self)@.vertices.dom(),
            forall|v: PatternId| #[trigger] old(self)@.vertices.contains_key(v) ==> rank_refined(old(self)@, final(self)@, v),
            final(self)@ == accurately_ranked(old(self)@),
    {
        broadcast use vstd::std_specs::btree::group_btree_axioms;
        proof {
            lemma_i32_keys_ordered();
            lemma_vertices_view_insert();
        }
        let ghost p = self@;
        // Initialize the visited map for all the vertices
        let mut visited_map = self.unvisited_map();
        // Iteratively find a group of vertices sharing the same rank
        let same_rank_vertex_groups: Vec<Vec<PatternId>> = self.get_same_rank_vertex_groups();
        let ghost groups = same_rank_vertex_groups@;
        // What each group is: the vertices of one label and rank
        assert forall|g: int, k: int| 0 <= g < groups.len() && 0 <= k < groups[g]@.len() implies {
            &&& p.vertices.contains_key(#[trigger] groups[g]@[k])
            &&& p.vertices[groups[g]@[k]].label == p.vertices[groups[g]@[0]].label
            &&& p.vertices[groups[g]@[k]].rank == p.vertices[groups[g]@[0]].rank
        } by {
            let key = p.vertices[groups[g]@[0]];
            lemma_equivalent_vertices(p, key.label, key.rank);
            assert(groups[g]@.to_set().contains(groups[g]@[k]));
        }
        // Constructing Neighboring Information for Vertex Groups Sharing the Same Index
        let ghost gsv = rank_groups(p);
        assert(groups_view(groups) == gsv);
        let mut vertex_neighbor_info_map: BTreeMap<PatternId, Vec<PatternId>> = BTreeMap::new();
        let mut gi: usize = 0;
        while gi < same_rank_vertex_groups.len()
            invariant
                self@ == p,
                ranking_ready(p),
                edges_have_ends(p),
                groups == same_rank_vertex_groups@,
                groups_view(groups) == gsv,
                gi <= groups.len(),
                forall|g: int, k: int| 0 <= g < groups.len() && 0 <= k < groups[g]@.len() ==> p.vertices.contains_key(#[trigger] groups[g]@[k]),
                neighbours_in(p.vertices.dom(), vertex_neighbor_info_map@),
                forall|v: PatternId| #[trigger] vertex_neighbor_info_map@.contains_key(v) <==> in_groups_before(gsv, gi as int, 0, v),
                forall|v: PatternId| #[trigger] vertex_neighbor_info_map@.contains_key(v) ==> vertex_neighbor_info_map@[v]@ == neighbours_of(p, v),
            decreases groups.len() - gi,
        {
            let vertex_group = &same_rank_vertex_groups[gi];
            assert(vertex_group@ == gsv[gi as int]);
            let mut k: usize = 0;
            while k < vertex_group.len()
                invariant
                    self@ == p,
                    ranking_ready(p),
                    edges_have_ends(p),
                    groups == same_rank_vertex_groups@,
                    groups_view(groups) == gsv,
                    gi < groups.len(),
                    k <= vertex_group@.len(),
                    vertex_group@ == groups[gi as int]@,
                    vertex_group@ == gsv[gi as int],
                    forall|g: int, k: int| 0 <= g < groups.len() && 0 <= k < groups[g]@.len() ==> p.vertices.contains_key(#[trigger] groups[g]@[k]),
                    neighbours_in(p.vertices.dom(), vertex_neighbor_info_map@),
                    forall|v: PatternId| #[trigger] vertex_neighbor_info_map@.contains_key(v) <==> in_groups_before(gsv, gi as int, k as int, v),
                    forall|v: PatternId| #[trigger] vertex_neighbor_info_map@.contains_key(v) ==> vertex_neighbor_info_map@[v]@ == neighbours_of(p, v),
                decreases vertex_group@.len() - k,
            {
                let v_id = vertex_group[k];
                assert(p.vertices.contains_key(groups[gi as int]@[k as int]));
                let neighbor_vertices = self.neighbour_vertices_of(v_id);
                vertex_neighbor_info_map.insert(v_id, neighbor_vertices);
                proof {
                    assert forall|v: PatternId| #[trigger] vertex_neighbor_info_map@.contains_key(v) <==> in_groups_before(gsv, gi as int, k + 1, v) by {
                        lemma_in_groups_step(gsv, gi as int, k as int, v);
                    }
                }
                k = k + 1;
            }
            proof {
                assert forall|v: PatternId| #[trigger] vertex_neighbor_info_map@.contains_key(v) <==> in_groups_before(gsv, gi + 1, 0, v) by {
                    lemma_in_groups_next(gsv, gi as int, v);
                }
            }
            gi = gi + 1;
        }
        let ghost nbv = group_neighbours(p);
        assert(lists_view(vertex_neighbor_info_map@) =~= nbv);
        assert forall|v: PatternId| #[trigger] p.vertices.contains_key(v) implies rank_refined(p, self@, v) by {
            lemma_equivalent_vertices(p, p.vertices[v].label, p.vertices[v].rank);
            assert(equivalent_vertex_set(p, p.vertices[v].label, p.vertices[v].rank).contains(v));
        }
        // Iteratively Compare the Indices of Vertices
        let ghost total = groups_ranked(p, nbv, gsv, 0, fresh_marks(p));
        for gi in 0..same_rank_vertex_groups.len()
            invariant
                groups == same_rank_vertex_groups@,
                p.vertices.dom().finite(),
                forall|v: PatternId| #[trigger] p.vertices.contains_key(v) ==> p.vertices[v].rank + equivalent_vertex_set(
                    p,
                    p.vertices[v].label,
                    p.vertices[v].rank,
                ).len() <= i32::MAX + 1,
                ranking_ready(p),
                forall|g: int| 0 <= g < groups.len() ==> {
                    &&& (#[trigger] groups[g])@.len() > 1
                    &&& p.vertices.contains_key(groups[g]@[0])
                    &&& groups[g]@ == equivalent_vertices(p, p.vertices[groups[g]@[0]].label, p.vertices[groups[g]@[0]].rank)
                },
                forall|g1: int, g2: int| 0 <= g1 < g2 < groups.len() ==> {
                    ||| p.vertices[(#[trigger] groups[g1])@[0]].label != p.vertices[(#[trigger] groups[g2])@[0]].label
                    ||| p.vertices[groups[g1]@[0]].rank != p.vertices[groups[g2]@[0]].rank
                },
                forall|g: int, k: int| 0 <= g < groups.len() && 0 <= k < groups[g]@.len() ==> {
                    &&& p.vertices.contains_key(#[trigger] groups[g]@[k])
                    &&& p.vertices[groups[g]@[k]].label == p.vertices[groups[g]@[0]].label
                    &&& p.vertices[groups[g]@[k]].rank == p.vertices[groups[g]@[0]].rank
                },
                self@.edges == p.edges,
                self@.edge_label_map == p.edge_label_map,
                self@.vertex_label_map == p.vertex_label_map,
                self@.vertices.dom() == p.vertices.dom(),
                visited_map@.dom() == p.vertices.dom(),
                neighbours_in(p.vertices.dom(), vertex_neighbor_info_map@),
                forall|v: PatternId| #[trigger] p.vertices.contains_key(v) ==> rank_refined(p, self@, v),
                forall|g: int, k: int| gi <= g < groups.len() && 0 <= k < groups[g]@.len() ==> self@.vertices[#[trigger] groups[g]@[k]].rank == p.vertices[groups[g]@[k]].rank,
                groups_view(groups) == gsv,
                lists_view(vertex_neighbor_info_map@) == nbv,
                groups_ranked(self@, nbv, gsv, gi as int, visited_map@) == total,
        {
            let vertex_group = &same_rank_vertex_groups[gi];
            let n = vertex_group.len();
            let ghost key = p.vertices[groups[gi as int]@[0]];
            proof {
                lemma_equivalent_vertices(p, key.label, key.rank);
                assert(groups[gi as int]@.len() > 1);
                assert(p.vertices.contains_key(groups[gi as int]@[0]));
            }
            let initial_rank: PatternRankId = self.get_vertex_rank(vertex_group[0]);
            assert(initial_rank == key.rank);
            assert(initial_rank + n <= i32::MAX + 1);
            let mut accurate_rank_vec: Vec<PatternRankId> = Vec::new();
            for k in 0..n
                invariant
                    accurate_rank_vec@.len() == k,
                    forall|m: int| 0 <= m < k ==> accurate_rank_vec@[m] == initial_rank,
            {
                accurate_rank_vec.push(initial_rank);
            }
            let ghost gq = self@;
            let ghost gv = gsv[gi as int];
            proof {
                assert(vertex_group@ == gv);
                assert(accurate_rank_vec@ =~= Seq::new(gv.len(), |k: int| gq.vertices[gv[0]].rank));
                assert(groups_ranked(gq, nbv, gsv, gi as int, visited_map@) == groups_ranked(
                    group_ranked(gq, nbv, gv, 0, 1, visited_map@, accurate_rank_vec@).0,
                    nbv,
                    gsv,
                    gi + 1,
                    group_ranked(gq, nbv, gv, 0, 1, visited_map@, accurate_rank_vec@).1,
                ));
            }
            for i in 0..n
                invariant
                    groups == same_rank_vertex_groups@,
                    vertex_group@ == groups[gi as int]@,
                    n == vertex_group@.len(),
                    gi < groups.len(),
                    initial_rank == key.rank,
                    key == p.vertices[groups[gi as int]@[0]],
                    n == equivalent_vertex_set(p, key.label, key.rank).len(),
                    initial_rank + n <= i32::MAX + 1,
                    accurate_rank_vec@.len() == n,
                    forall|k: int| i <= k < n ==> initial_rank <= #[trigger] accurate_rank_vec@[k] <= initial_rank + i,
                    p.vertices.dom().finite(),
                    forall|g: int| 0 <= g < groups.len() ==> {
                        &&& (#[trigger] groups[g])@.len() > 1
                        &&& p.vertices.contains_key(groups[g]@[0])
                    },
                    forall|g1: int, g2: int| 0 <= g1 < g2 < groups.len() ==> {
                        ||| p.vertices[(#[trigger] groups[g1])@[0]].label != p.vertices[(#[trigger] groups[g2])@[0]].label
                        ||| p.vertices[groups[g1]@[0]].rank != p.vertices[groups[g2]@[0]].rank
                    },
                    forall|g: int, k: int| 0 <= g < groups.len() && 0 <= k < groups[g]@.len() ==> {
                        &&& p.vertices.contains_key(#[trigger] groups[g]@[k])
                        &&& p.vertices[groups[g]@[k]].label == p.vertices[groups[g]@[0]].label
                        &&& p.vertices[groups[g]@[k]].rank == p.vertices[groups[g]@[0]].rank
                    },
                    strictly_increasing(vertex_group@),
                    self@.edges == p.edges,
                    self@.edge_label_map == p.edge_label_map,
                    self@.vertex_label_map == p.vertex_label_map,
                    self@.vertices.dom() == p.vertices.dom(),
                    visited_map@.dom() == p.vertices.dom(),
                    neighbours_in(p.vertices.dom(), vertex_neighbor_info_map@),
                    forall|v: PatternId| #[trigger] p.vertices.contains_key(v) ==> rank_refined(p, self@, v),
                    forall|k: int| i <= k < n ==> self@.vertices[#[trigger] vertex_group@[k]].rank == p.vertices[vertex_group@[k]].rank,
                    forall|g: int, k: int| gi < g < groups.len() && 0 <= k < groups[g]@.len() ==> self@.vertices[#[trigger] groups[g]@[k]].rank == p.vertices[groups[g]@[k]].rank,
                    gv == gsv[gi as int],
                    vertex_group@ == gv,
                    lists_view(vertex_neighbor_info_map@) == nbv,
                    groups_ranked(
                        group_ranked(self@, nbv, gv, i as int, i + 1, visited_map@, accurate_rank_vec@).0,
                        nbv,
                        gsv,
                        gi + 1,
                        group_ranked(self@, nbv, gv, i as int, i + 1, visited_map@, accurate_rank_vec@).1,
                    ) == total,
            {
                // We only cares about how many vertices are (smaller) than Vertex i
                for j in (i + 1)..n
                    invariant
                        n == vertex_group@.len(),
                        i < n,
                        initial_rank + n <= i32::MAX + 1,
                        accurate_rank_vec@.len() == n,
                        initial_rank <= accurate_rank_vec@[i as int] <= initial_rank + j - 1,
                        forall|k: int| i < k < n ==> initial_rank <= #[trigger] accurate_rank_vec@[k] <= initial_rank + i + (if k < j { 1int } else { 0int }),
                        p.vertices.dom().finite(),
                        self@.vertices.dom() == p.vertices.dom(),
                        visited_map@.dom() == p.vertices.dom(),
                        neighbours_in(p.vertices.dom(), vertex_neighbor_info_map@),
                        forall|k: int| 0 <= k < n ==> p.vertices.contains_key(#[trigger] vertex_group@[k]),
                        vertex_group@ == gv,
                        lists_view(vertex_neighbor_info_map@) == nbv,
                        groups_ranked(
                            group_ranked(self@, nbv, gv, i as int, j as int, visited_map@, accurate_rank_vec@).0,
                            nbv,
                            gsv,
                            gi + 1,
                            group_ranked(self@, nbv, gv, i as int, j as int, visited_map@, accurate_rank_vec@).1,
                        ) == total,
                {
                    assert(p.vertices.contains_key(vertex_group@[i as int]));
                    assert(p.vertices.contains_key(vertex_group@[j as int]));
                    let ghost vis0 = visited_map@;
                    let ghost acc0 = accurate_rank_vec@;
                    let order = self.accurate_order(
                        vertex_group[i],
                        vertex_group[j],
                        &vertex_neighbor_info_map,
                        &mut visited_map,
                    );
                    if order < 0 {
                        let r = accurate_rank_vec[j] + 1;
                        accurate_rank_vec.set(j, r);
                    } else if order > 0 {
                        let r = accurate_rank_vec[i] + 1;
                        accurate_rank_vec.set(i, r);
                    }
                    proof {
                        assert(group_ranked(self@, nbv, gv, i as int, j as int, vis0, acc0)
                            == group_ranked(self@, nbv, gv, i as int, j + 1, visited_map@, accurate_rank_vec@));
                    }
                }
                // Set rank to Vertex i
                let v_id = vertex_group[i];
                let ghost before = self@;
                proof {
                    assert(group_ranked(before, nbv, gv, i as int, n as int, visited_map@, accurate_rank_vec@)
                        == group_ranked(with_rank(before, gv[i as int], accurate_rank_vec@[i as int]), nbv, gv, i + 1, i + 2, visited_map@, accurate_rank_vec@));
                }
                assert(p.vertices.contains_key(groups[gi as int]@[i as int]));
                match self.get_vertex_mut_from_id(v_id) {
                    Some(vertex) => {
                        vertex.set_rank(accurate_rank_vec[i]);
                    },
                    None => {},
                }
                proof {
                    assert(self@ == with_rank(before, gv[i as int], accurate_rank_vec@[i as int]));
                    assert(rank_refined(p, before, v_id));
                    assert forall|v: PatternId| #[trigger] p.vertices.contains_key(v) implies rank_refined(p, self@, v) by {
                        assert(rank_refined(p, before, v));
                        if v == v_id {
                            assert(p.vertices[v].rank == key.rank);
                            assert(p.vertices[v].label == key.label);
                        }
                    }
                    assert forall|k: int| i + 1 <= k < n implies self@.vertices[#[trigger] vertex_group@[k]].rank == p.vertices[vertex_group@[k]].rank by {
                        assert(vertex_group@[k] != v_id) by {
                            assert(vertex_group@[i as int] < vertex_group@[k]);
                        }
                        assert(before.vertices[vertex_group@[k]].rank == p.vertices[vertex_group@[k]].rank);
                    }
                    assert forall|g: int, k: int| gi < g < groups.len() && 0 <= k < groups[g]@.len() implies self@.vertices[#[trigger] groups[g]@[k]].rank == p.vertices[groups[g]@[k]].rank by {
                        assert(before.vertices[groups[g]@[k]].rank == p.vertices[groups[g]@[k]].rank);
                        if groups[g]@[k] == v_id {
                            assert(groups[gi as int]@[i as int] == v_id);
                            assert(p.vertices[groups[g]@[0]].label == p.vertices[groups[gi as int]@[0]].label);
                            assert(p.vertices[groups[g]@[0]].rank == p.vertices[groups[gi as int]@[0]].rank);
                            assert(groups[gi as int]@.len() > 1 && groups[g]@.len() > 1);
                        }
                    }
                }
            }
        }
    }
}

} // verus!

verus! {

/// Every vertex has as many out neighbour pairs as its out degree, and as many in neighbour
/// pairs as its in degree.
pub open spec fn degrees_consistent(p: PatternView) -> bool {
    forall|v: PatternId| #[trigger] p.vertices.contains_key(v) ==> {
        &&& neighbour_pairs(p, p.vertices[v], PatternDirection::Out).len() == p.vertices[v].out_degree
        &&& neighbour_pairs(p, p.vertices[v], PatternDirection::In).len() == p.vertices[v].in_degree
    }
}

/// Comparing pair sequences is antisymmetric.
proof fn lemma_pairs_order_antisymmetric(a: Seq<(i32, i32)>, b: Seq<(i32, i32)>, i: int)
    ensures
        pairs_order_from(a, b, i) == -pairs_order_from(b, a, i),
        pairs_order_from(a, b, i) == -1 || pairs_order_from(a, b, i) == 0 || pairs_order_from(a, b, i) == 1,
    decreases a.len() - i,
{
    if 0 <= i < a.len() && i < b.len() {
        lemma_pairs_order_antisymmetric(a, b, i + 1);
    }
}

/// Comparing pair sequences of one length chains: two steps that do not go up do not go up,
/// and they go down where one of them does.
proof fn lemma_pairs_order_chain(a: Seq<(i32, i32)>, b: Seq<(i32, i32)>, c: Seq<(i32, i32)>, i: int)
    requires
        a.len() == b.len(),
        b.len() == c.len(),
        pairs_order_from(a, b, i) <= 0,
        pairs_order_from(b, c, i) <= 0,
    ensures
        pairs_order_from(a, c, i) == (if pairs_order_from(a, b, i) == -1 || pairs_order_from(b, c, i) == -1 { -1int } else { 0int }),
    decreases a.len() - i,
{
    lemma_pairs_order_antisymmetric(a, b, i);
    lemma_pairs_order_antisymmetric(b, c, i);
    if 0 <= i < a.len() {
        lemma_pairs_order_antisymmetric(a, b, i + 1);
        lemma_pairs_order_antisymmetric(b, c, i + 1);
        if a[i] == b[i] && b[i] == c[i] {
            lemma_pairs_order_chain(a, b, c, i + 1);
        }
    }
}

/// The initial order of vertices is antisymmetric.
proof fn lemma_initial_order_antisymmetric(p: PatternView, a: PatternId, b: PatternId)
    ensures
        initial_order(p, a, b) == -initial_order(p, b, a),
        initial_order(p, a, b) == -1 || initial_order(p, a, b) == 0 || initial_order(p, a, b) == 1,
{
    let va = p.vertices[a];
    let vb = p.vertices[b];
    lemma_pairs_order_antisymmetric(neighbour_pairs(p, va, PatternDirection::Out), neighbour_pairs(p, vb, PatternDirection::Out), 0);
    lemma_pairs_order_antisymmetric(neighbour_pairs(p, va, PatternDirection::In), neighbour_pairs(p, vb, PatternDirection::In), 0);
}

/// The initial order of vertices chains: two steps that do not go up do not go up, and they
/// go down where one of them does.
proof fn lemma_initial_order_chain(p: PatternView, a: PatternId, b: PatternId, c: PatternId)
    requires
        degrees_consistent(p),
        p.vertices.contains_key(a),
        p.vertices.contains_key(b),
        p.vertices.contains_key(c),
        initial_order(p, a, b) <= 0,
        initial_order(p, b, c) <= 0,
    ensures
        initial_order(p, a, c) == (if initial_order(p, a, b) == -1 || initial_order(p, b, c) == -1 { -1int } else { 0int }),
{
    lemma_initial_order_antisymmetric(p, a, b);
    lemma_initial_order_antisymmetric(p, b, c);
    lemma_initial_order_antisymmetric(p, a, c);
    let va = p.vertices[a];
    let vb = p.vertices[b];
    let vc = p.vertices[c];
    let oa = neighbour_pairs(p, va, PatternDirection::Out);
    let ob = neighbour_pairs(p, vb, PatternDirection::Out);
    let oc = neighbour_pairs(p, vc, PatternDirection::Out);
    let ia = neighbour_pairs(p, va, PatternDirection::In);
    let ib = neighbour_pairs(p, vb, PatternDirection::In);
    let ic = neighbour_pairs(p, vc, PatternDirection::In);
    lemma_pairs_order_antisymmetric(oa, ob, 0);
    lemma_pairs_order_antisymmetric(ob, oc, 0);
    lemma_pairs_order_antisymmetric(oa, oc, 0);
    lemma_pairs_order_antisymmetric(ia, ib, 0);
    lemma_pairs_order_antisymmetric(ib, ic, 0);
    lemma_pairs_order_antisymmetric(ia, ic, 0);
    if a == b || b == c {
    } else if a == c {
    } else if va.label == vb.label && vb.label == vc.label && va.out_degree == vb.out_degree && vb.out_degree == vc.out_degree
        && va.in_degree == vb.in_degree && vb.in_degree == vc.in_degree {
        if pairs_order_from(oa, ob, 0) <= 0 && pairs_order_from(ob, oc, 0) <= 0 {
            lemma_pairs_order_chain(oa, ob, oc, 0);
        }
        if pairs_order_from(oa, ob, 0) == 0 && pairs_order_from(ob, oc, 0) == 0 {
            lemma_pairs_order_chain(ia, ib, ic, 0);
        }
    }
}

} // verus!

verus! {

/// The vertices listed under `v`'s label that come strictly before `v` in the initial order.
pub open spec fn initially_below(p: PatternView, v: PatternId) -> Set<PatternId> {
    p.vertex_label_map[p.vertices[v].label].filter(|u: PatternId| initial_order(p, u, v) == -1)
}

/// The vertices listed under `v`'s label that the initial order cannot tell from `v`.
pub open spec fn initially_tied(p: PatternView, v: PatternId) -> Set<PatternId> {
    p.vertex_label_map[p.vertices[v].label].filter(|u: PatternId| initial_order(p, u, v) == 0)
}

/// The vertices below and tied with `v` are finitely many, disjoint, and together no more
/// than those listed under its label; `v` is tied with itself.
proof fn lemma_below_and_tied(p: PatternView, v: PatternId)
    requires
        ranking_ready(p),
        p.vertices.dom().finite(),
        p.vertices.contains_key(v),
    ensures
        initially_below(p, v).finite(),
        initially_tied(p, v).finite(),
        initially_tied(p, v).contains(v),
        initially_tied(p, v).len() >= 1,
        initial_rank(p, v) == initially_below(p, v).len(),
        initially_below(p, v).len() + initially_tied(p, v).len() <= p.vertex_label_map[p.vertices[v].label].len(),
        initially_below(p, v).len() + initially_tied(p, v).len() <= p.vertices.dom().len(),
{
    let s = p.vertex_label_map[p.vertices[v].label];
    assert(s.subset_of(p.vertices.dom()));
    vstd::set_lib::lemma_len_subset(s, p.vertices.dom());
    let below = initially_below(p, v);
    let tied = initially_tied(p, v);
    vstd::set_lib::lemma_len_subset(below, s);
    vstd::set_lib::lemma_len_subset(tied, s);
    assert(below.disjoint(tied));
    vstd::set_lib::lemma_set_disjoint_lens(below, tied);
    vstd::set_lib::lemma_len_subset(below + tied, s);
    assert(tied.contains(v));
}

/// Two vertices of one label that the initial order ties get one initial rank; where one
/// comes before the other, its rank and the vertices tied with it all fit below the other's.
proof fn lemma_initial_rank_order(p: PatternView, u: PatternId, v: PatternId)
    requires
        ranking_ready(p),
        degrees_consistent(p),
        p.vertices.dom().finite(),
        p.vertices.contains_key(u),
        p.vertices.contains_key(v),
        p.vertices[u].label == p.vertices[v].label,
    ensures
        initial_order(p, u, v) == 0 ==> initial_rank(p, u) == initial_rank(p, v) && initially_tied(p, u) == initially_tied(p, v),
        initial_order(p, u, v) == -1 ==> initial_rank(p, u) + initially_tied(p, u).len() <= initial_rank(p, v),
        initial_order(p, u, v) == -1 ==> initial_rank(p, u) < initial_rank(p, v),
{
    lemma_below_and_tied(p, u);
    lemma_below_and_tied(p, v);
    let s = p.vertex_label_map[p.vertices[v].label];
    lemma_initial_order_antisymmetric(p, u, v);
    if initial_order(p, u, v) == 0 {
        assert forall|w: PatternId| initially_below(p, u).contains(w) <==> initially_below(p, v).contains(w) by {
            if s.contains(w) {
                lemma_initial_order_antisymmetric(p, w, u);
                lemma_initial_order_antisymmetric(p, w, v);
                if initial_order(p, w, u) == -1 {
                    lemma_initial_order_chain(p, w, u, v);
                }
                if initial_order(p, w, v) == -1 {
                    lemma_initial_order_chain(p, w, v, u);
                }
            }
        }
        assert(initially_below(p, u) =~= initially_below(p, v));
        assert forall|w: PatternId| initially_tied(p, u).contains(w) <==> initially_tied(p, v).contains(w) by {
            if s.contains(w) {
                lemma_initial_order_antisymmetric(p, w, u);
                lemma_initial_order_antisymmetric(p, w, v);
                if initial_order(p, w, u) == 0 {
                    lemma_initial_order_chain(p, w, u, v);
                }
                if initial_order(p, w, v) == 0 {
                    lemma_initial_order_chain(p, w, v, u);
                }
            }
        }
        assert(initially_tied(p, u) =~= initially_tied(p, v));
    }
    if initial_order(p, u, v) == -1 {
        let below_u = initially_below(p, u);
        let tied_u = initially_tied(p, u);
        let below_v = initially_below(p, v);
        assert forall|w: PatternId| (below_u + tied_u).contains(w) implies below_v.contains(w) by {
            if s.contains(w) {
                lemma_initial_order_antisymmetric(p, w, u);
                if initial_order(p, w, u) <= 0 {
                    lemma_initial_order_chain(p, w, u, v);
                }
            }
        }
        assert(below_u.disjoint(tied_u));
        vstd::set_lib::lemma_set_disjoint_lens(below_u, tied_u);
        vstd::set_lib::lemma_len_subset(below_u + tied_u, below_v);
    }
}

/// Every vertex of the pattern has finitely many connections.
pub open spec fn connections_finite(p: PatternView) -> bool {
    forall|v: PatternId| #[trigger] p.vertices.contains_key(v) ==> p.vertices[v].connect_edges.dom().finite()
}

/// `q` differs from `p` at most in the ranks of its vertices.
pub open spec fn same_but_ranks(p: PatternView, q: PatternView) -> bool {
    &&& q.edges == p.edges
    &&& q.edge_label_map == p.edge_label_map
    &&& q.vertex_label_map == p.vertex_label_map
    &&& q.vertices.dom() == p.vertices.dom()
    &&& forall|v: PatternId| #[trigger] p.vertices.contains_key(v) ==> q.vertices[v] == (PatternVertexView { rank: q.vertices[v].rank, ..p.vertices[v] })
}

/// The connection infos of a vertex do not depend on the ranks of any vertex.
proof fn lemma_connection_infos_ignore_ranks(
    p: PatternView,
    q: PatternView,
    v: PatternVertexView,
    w: PatternVertexView,
    ids: Seq<PatternId>,
    d: PatternDirection,
)
    requires
        same_but_ranks(p, q),
        w == (PatternVertexView { rank: w.rank, ..v }),
        forall|k: int| 0 <= k < ids.len() ==> p.vertices.contains_key(v.connect_edges[#[trigger] ids[k]].0),
    ensures
        connection_infos(p, v, ids, d) == connection_infos(q, w, ids, d),
    decreases ids.len(),
{
    if ids.len() > 0 {
        lemma_connection_infos_ignore_ranks(p, q, v, w, ids.drop_last(), d);
        let c = v.connect_edges[ids.last()];
        assert(p.vertices.contains_key(c.0));
        assert(q.vertices[c.0].label == p.vertices[c.0].label);
    }
}

/// The initial order does not depend on the ranks of the vertices.
proof fn lemma_initial_order_ignores_ranks(p: PatternView, q: PatternView, a: PatternId, b: PatternId)
    requires
        ranking_ready(p),
        connections_finite(p),
        same_but_ranks(p, q),
        p.vertices.contains_key(a),
        p.vertices.contains_key(b),
    ensures
        initial_order(p, a, b) == initial_order(q, a, b),
        neighbour_pairs(p, p.vertices[a], PatternDirection::Out) == neighbour_pairs(q, q.vertices[a], PatternDirection::Out),
        neighbour_pairs(p, p.vertices[a], PatternDirection::In) == neighbour_pairs(q, q.vertices[a], PatternDirection::In),
{
    assert forall|x: PatternId| #[trigger] p.vertices.contains_key(x) implies {
        &&& neighbour_pairs(p, p.vertices[x], PatternDirection::Out) == neighbour_pairs(q, q.vertices[x], PatternDirection::Out)
        &&& neighbour_pairs(p, p.vertices[x], PatternDirection::In) == neighbour_pairs(q, q.vertices[x], PatternDirection::In)
    } by {
        let v = p.vertices[x];
        let ids = sorted_ints(v.connect_edges.dom());
        lemma_sorted_ints_exists(v.connect_edges.dom());
        assert forall|k: int| 0 <= k < ids.len() implies p.vertices.contains_key(v.connect_edges[#[trigger] ids[k]].0) by {
            assert(ids.to_set().contains(ids[k]));
        }
        lemma_connection_infos_ignore_ranks(p, q, v, q.vertices[x], ids, PatternDirection::Out);
        lemma_connection_infos_ignore_ranks(p, q, v, q.vertices[x], ids, PatternDirection::In);
    }
}

/// The initial ranking does not depend on the ranks that the vertices had.
proof fn lemma_initially_ranked_ignores_ranks(p: PatternView, q: PatternView)
    requires
        ranking_ready(p),
        connections_finite(p),
        same_but_ranks(p, q),
    ensures
        initially_ranked(p) == initially_ranked(q),
        ranking_ready(q),
        degrees_consistent(p) ==> degrees_consistent(q),
        edges_have_ends(p) ==> edges_have_ends(q),
{
    assert forall|v: PatternId| #[trigger] p.vertices.contains_key(v) implies initial_rank(p, v) == initial_rank(q, v) by {
        let s = p.vertex_label_map[p.vertices[v].label];
        assert(s == q.vertex_label_map[q.vertices[v].label]);
        assert forall|u: PatternId| s.contains(u) implies initial_order(p, u, v) == initial_order(q, u, v) by {
            lemma_initial_order_ignores_ranks(p, q, u, v);
        }
        assert(s.filter(|u: PatternId| initial_order(p, u, v) == -1) =~= s.filter(|u: PatternId| initial_order(q, u, v) == -1));
    }
    assert(initially_ranked(p).vertices =~= initially_ranked(q).vertices);
    assert forall|v: PatternId| #[trigger] p.vertices.contains_key(v) implies {
        &&& neighbour_pairs(p, p.vertices[v], PatternDirection::Out) == neighbour_pairs(q, q.vertices[v], PatternDirection::Out)
        &&& neighbour_pairs(p, p.vertices[v], PatternDirection::In) == neighbour_pairs(q, q.vertices[v], PatternDirection::In)
    } by {
        lemma_initial_order_ignores_ranks(p, q, v, v);
    }
    assert forall|v: PatternId, e: PatternId| #[trigger] q.vertices.contains_key(v) && #[trigger] q.vertices[v].connect_edges.contains_key(e) implies {
        &&& q.edges.contains_key(e)
        &&& q.vertices.contains_key(q.vertices[v].connect_edges[e].0)
    } by {
        assert(p.vertices.contains_key(v));
    }
    assert forall|l: PatternLabelId, v: PatternId| #[trigger] q.vertex_label_map.contains_key(l) && #[trigger] q.vertex_label_map[l].contains(v) implies {
        &&& q.vertices.contains_key(v)
        &&& q.vertices[v].label == l
    } by {
        assert(p.vertex_label_map.contains_key(l) && p.vertex_label_map[l].contains(v));
    }
    assert forall|v: PatternId| #[trigger] q.vertices.contains_key(v) implies {
        &&& q.vertices[v].id == v
        &&& q.vertex_label_map.contains_key(q.vertices[v].label)
        &&& q.vertex_label_map[q.vertices[v].label].contains(v)
    } by {
        assert(p.vertices.contains_key(v));
    }
    if edges_have_ends(p) {
        assert forall|e: PatternId| #[trigger] q.edges.contains_key(e) implies {
            &&& q.vertices.contains_key(q.edges[e].start_v_id)
            &&& q.vertices.contains_key(q.edges[e].end_v_id)
        } by {
            assert(p.edges.contains_key(e));
        }
    }
    if degrees_consistent(p) {
        assert forall|v: PatternId| #[trigger] q.vertices.contains_key(v) implies {
            &&& neighbour_pairs(q, q.vertices[v], PatternDirection::Out).len() == q.vertices[v].out_degree
            &&& neighbour_pairs(q, q.vertices[v], PatternDirection::In).len() == q.vertices[v].in_degree
        } by {
            assert(p.vertices.contains_key(v));
        }
    }
}

} // verus!

verus! {

/// Methods of Index Ranking
impl Pattern {
    /// Ranks the vertices of each label: first by the initial order (labels, degrees and the
    /// labels of the neighbours), a vertex's rank being how many of its label come strictly
    /// before it; then, within each group that the initial order cannot tell apart, through
    /// their neighbours. A vertex that comes before another in the initial order keeps a
    /// smaller rank.
    pub fn rank_ranking(&mut self)
        requires
            ranking_ready(old(self)@),
            edges_have_ends(old(self)@),
            degrees_consistent(old(self)@),
            old(self)@.vertices.dom().finite(),
            old(self)@.vertices.dom().len() <= i32::MAX,
        ensures
            final(self)@.edges == old(self)@.edges,
            final(self)@.edge_label_map == old(self)@.edge_label_map,
            final(self)@.vertex_label_map == old(self)@.vertex_label_map,
            final(self)@.vertices.dom() == old(self)@.vertices.dom(),
            forall|v: PatternId| #[trigger] old(self)@.vertices.contains_key(v) ==> {
                &&& final(self)@.vertices[v] == (PatternVertexView { rank: final(self)@.vertices[v].rank, ..old(self)@.vertices[v] })
                &&& initial_rank(old(self)@, v) <= final(self)@.vertices[v].rank
                &&& final(self)@.vertices[v].rank < initial_rank(old(self)@, v) + initially_tied(old(self)@, v).len()
                &&& final(self)@.vertices[v].rank < old(self)@.vertex_label_map[old(self)@.vertices[v].label].len()
            },
            forall|u: PatternId, v: PatternId|
                old(self)@.vertices.contains_key(u) && old(self)@.vertices.contains_key(v) && old(self)@.vertices[u].label == old(self)@.vertices[v].label
                    && #[trigger] initial_order(old(self)@, u, v) == -1 ==> #[trigger] final(self)@.vertices[u].rank < #[trigger] final(self)@.vertices[v].rank,
            final(self)@ == accurately_ranked(initially_ranked(old(self)@)),
            ranking_ready(final(self)@),
            edges_have_ends(final(self)@),
            degrees_consistent(final(self)@),
            accurately_ranked(initially_ranked(final(self)@)) == final(self)@,
    {
        let ghost p = self@;
        proof {
            assert forall|v: PatternId| #[trigger] p.vertices.contains_key(v) implies p.vertices[v].connect_edges.dom().finite() by {
                vstd::std_specs::btree::axiom_btree_map_view_finite_dom(self.vertices@[v].connect_edges);
            }
        }
        self.set_initial_rank();
        let ghost q = self@;
        proof {
            assert forall|v: PatternId| #[trigger] p.vertices.contains_key(v) implies q.vertices[v].rank == initial_rank(p, v) by {
                lemma_below_and_tied(p, v);
            }
            assert forall|v: PatternId| #[trigger] q.vertices.contains_key(v) implies equivalent_vertex_set(q, q.vertices[v].label, q.vertices[v].rank) == initially_tied(p, v) by {
                assert(p.vertices.contains_key(v));
                let s = p.vertex_label_map[p.vertices[v].label];
                assert forall|w: PatternId| equivalent_vertex_set(q, q.vertices[v].label, q.vertices[v].rank).contains(w) <==> initially_tied(p, v).contains(w) by {
                    if s.contains(w) {
                        assert(p.vertices.contains_key(w));
                        lemma_initial_rank_order(p, w, v);
                        lemma_initial_rank_order(p, v, w);
                        lemma_initial_order_antisymmetric(p, w, v);
                    }
                }
                assert(equivalent_vertex_set(q, q.vertices[v].label, q.vertices[v].rank) =~= initially_tied(p, v));
            }
            assert forall|v: PatternId| #[trigger] q.vertices.contains_key(v) implies q.vertices[v].rank + equivalent_vertex_set(
                q,
                q.vertices[v].label,
                q.vertices[v].rank,
            ).len() <= i32::MAX + 1 by {
                assert(p.vertices.contains_key(v));
                lemma_below_and_tied(p, v);
            }
            assert forall|v: PatternId, e: PatternId| #[trigger] q.vertices.contains_key(v) && #[trigger] q.vertices[v].connect_edges.contains_key(e) implies {
                &&& q.edges.contains_key(e)
                &&& q.vertices.contains_key(q.vertices[v].connect_edges[e].0)
            } by {
                assert(p.vertices.contains_key(v));
            }
            assert forall|l: PatternLabelId, v: PatternId| #[trigger] q.vertex_label_map.contains_key(l) && #[trigger] q.vertex_label_map[l].contains(v) implies {
                &&& q.vertices.contains_key(v)
                &&& q.vertices[v].label == l
            } by {
                assert(p.vertex_label_map.contains_key(l) && p.vertex_label_map[l].contains(v));
            }
            assert forall|v: PatternId| #[trigger] q.vertices.contains_key(v) implies {
                &&& q.vertices[v].id == v
                &&& q.vertex_label_map.contains_key(q.vertices[v].label)
                &&& q.vertex_label_map[q.vertices[v].label].contains(v)
            } by {
                assert(p.vertices.contains_key(v));
            }
            assert forall|e: PatternId| #[trigger] q.edges.contains_key(e) implies {
                &&& q.vertices.contains_key(q.edges[e].start_v_id)
                &&& q.vertices.contains_key(q.edges[e].end_v_id)
            } by {
                assert(p.edges.contains_key(e));
            }
        }
        proof {
            assert(q.vertices =~= initially_ranked(p).vertices);
            assert(q == initially_ranked(p));
        }
        self.set_accurate_rank();
        proof {
            assert forall|u: PatternId, v: PatternId|
                p.vertices.contains_key(u) && p.vertices.contains_key(v) && p.vertices[u].label == p.vertices[v].label
                    && #[trigger] initial_order(p, u, v) == -1 implies #[trigger] self@.vertices[u].rank < #[trigger] self@.vertices[v].rank by {
                assert(rank_refined(q, self@, u));
                assert(rank_refined(q, self@, v));
                lemma_initial_rank_order(p, u, v);
            }
            assert forall|v: PatternId| #[trigger] p.vertices.contains_key(v) implies {
                &&& self@.vertices[v] == (PatternVertexView { rank: self@.vertices[v].rank, ..p.vertices[v] })
                &&& initial_rank(p, v) <= self@.vertices[v].rank
                &&& self@.vertices[v].rank < initial_rank(p, v) + initially_tied(p, v).len()
                &&& self@.vertices[v].rank < p.vertex_label_map[p.vertices[v].label].len()
            } by {
                assert(rank_refined(q, self@, v));
                lemma_below_and_tied(p, v);
            }
            assert(same_but_ranks(p, self@));
            lemma_initially_ranked_ignores_ranks(p, self@);
        }
    }
}

} // verus!

verus! {

/// A direction of the pattern meta as a pattern direction.
pub open spec fn pattern_dir(d: Direction) -> PatternDirection {
    match d {
        Direction::Out => PatternDirection::Out,
        Direction::Incoming => PatternDirection::In,
    }
}

/// The edge labels, with directions, that the meta records from vertex label `s` to vertex label `t`.
pub open spec fn meta_edges_between(meta: PatternMetaView, s: PatternLabelId, t: PatternLabelId) -> Seq<(i32, Direction)> {
    if meta.vertex_vertex_edges.contains_key((s, t)) {
        meta.vertex_vertex_edges[(s, t)]
    } else {
        Seq::empty()
    }
}

/// The extend edges from the vertices `vids` of `p` to a new vertex of label `target`, each
/// with the id of the vertex it starts from: vertex by vertex, the edge labels that the meta
/// records between the vertex's label and `target`, in the meta's order.
pub open spec fn extend_candidates(p: PatternView, meta: PatternMetaView, vids: Seq<PatternId>, target: PatternLabelId) -> Seq<(ExtendEdge, PatternId)>
    decreases vids.len(),
{
    if vids.len() == 0 {
        Seq::empty()
    } else {
        let v = p.vertices[vids.last()];
        let conns = meta_edges_between(meta, v.label, target);
        extend_candidates(p, meta, vids.drop_last(), target) + Seq::new(
            conns.len(),
            |i: int|
                (ExtendEdge { start_v_label: v.label, start_v_rankid: v.rank, edge_label: conns[i].0, dir: pattern_dir(conns[i].1) }, v.id),
        )
    }
}

/// The group key of a start vertex: its id, shifted to be a natural number.
pub open spec fn start_group(id: PatternId) -> int {
    id - i32::MIN
}

/// The extend steps to a new vertex of label `target`: one for each combination of candidate
/// extend edges, breadth first, with no two edges from the same vertex.
pub open spec fn steps_for_target(p: PatternView, meta: PatternMetaView, target: PatternLabelId) -> Seq<ExtendStepView> {
    let cands = extend_candidates(p, meta, sorted_ints(p.vertices.dom()), target);
    let groups = cands.map_values(|c: (ExtendEdge, PatternId)| start_group(c.1));
    bfs_combinations(cands.len(), groups).map_values(
        |c: Seq<int>| ExtendStepView { target_v_label: target, extend_edges: group_by_start(c.map_values(|i: int| cands[i].0)) },
    )
}

/// The extend steps to a new vertex of each of the labels `targets`, label by label.
pub open spec fn extend_steps_of(p: PatternView, meta: PatternMetaView, targets: Seq<i32>) -> Seq<ExtendStepView>
    decreases targets.len(),
{
    if targets.len() == 0 {
        Seq::empty()
    } else {
        extend_steps_of(p, meta, targets.drop_last()) + steps_for_target(p, meta, targets.last())
    }
}

impl Pattern {
    /// The candidate extend edges to a new vertex of label `target_v_label`.
    fn extend_candidates_of(&self, pattern_meta: &PatternMeta, target_v_label: PatternLabelId) -> (cands: Vec<(ExtendEdge, PatternId)>)
        ensures
            cands@ == extend_candidates(self@, pattern_meta@, sorted_ints(self@.vertices.dom()), target_v_label),
    {
        broadcast use vstd::std_specs::btree::group_btree_axioms;
        proof {
            lemma_i32_keys_ordered();
        }
        let ids = map_keys(&self.vertices);
        assert(self@.vertices.dom() =~= self.vertices@.dom());
        let mut extend_edges_with_src_id: Vec<(ExtendEdge, PatternId)> = Vec::new();
        for k in 0..ids.len()
            invariant
                ids@ == sorted_ints(self@.vertices.dom()),
                forall|v: PatternId| self@.vertices.contains_key(v) <==> #[trigger] ids@.contains(v),
                extend_edges_with_src_id@ == extend_candidates(self@, pattern_meta@, ids@.take(k as int), target_v_label),
        {
            let v_id = ids[k];
            assert(ids@.contains(v_id));
            proof {
                assert(ids@.take(k + 1).drop_last() == ids@.take(k as int));
                assert(ids@.take(k + 1).last() == v_id);
            }
            let src_vertex = match self.vertices.get(&v_id) {
                Some(src_vertex) => src_vertex,
                None => {
                    assert(false);
                    return extend_edges_with_src_id;
                },
            };
            assert(src_vertex@ == self@.vertices[v_id]);
            // check whether there are some edges between the target vertex and the current source vertex
            let connect_edges = pattern_meta.get_edges_between_vertices(src_vertex.label, target_v_label);
            let ghost base = extend_edges_with_src_id@;
            // Transform all the connect edges to ExtendEdge and add to extend_edges_with_src_id
            for i in 0..connect_edges.len()
                invariant
                    extend_edges_with_src_id@ == base + Seq::new(
                        i as nat,
                        |j: int|
                            (ExtendEdge {
                                start_v_label: src_vertex@.label,
                                start_v_rankid: src_vertex@.rank,
                                edge_label: connect_edges@[j].0,
                                dir: pattern_dir(connect_edges@[j].1),
                            }, src_vertex@.id),
                    ),
            {
                let (edge_label, dir) = connect_edges[i];
                let pattern_direction = match dir {
                    Direction::Out => PatternDirection::Out,
                    Direction::Incoming => PatternDirection::In,
                };
                let extend_edge = ExtendEdge::new(src_vertex.label, src_vertex.rank, edge_label, pattern_direction);
                extend_edges_with_src_id.push((extend_edge, src_vertex.id));
                proof {
                    assert(extend_edges_with_src_id@ =~= base + Seq::new(
                        (i + 1) as nat,
                        |j: int|
                            (ExtendEdge {
                                start_v_label: src_vertex@.label,
                                start_v_rankid: src_vertex@.rank,
                                edge_label: connect_edges@[j].0,
                                dir: pattern_dir(connect_edges@[j].1),
                            }, src_vertex@.id),
                    ));
                }
            }
            proof {
                assert(extend_edges_with_src_id@ =~= extend_candidates(self@, pattern_meta@, ids@.take(k + 1), target_v_label));
            }
        }
        proof {
            assert(ids@.take(ids@.len() as int) == ids@);
        }
        extend_edges_with_src_id
    }

    /// Find all possible ExtendSteps of current pattern based on the given Pattern Meta
    pub fn get_extend_steps(&self, pattern_meta: &PatternMeta) -> (extend_steps: Vec<ExtendStep>)
        requires
            pattern_meta@.wf(),
        ensures
            extend_steps@.len() == extend_steps_of(self@, pattern_meta@, vertex_ids_by_name(pattern_meta@)).len(),
            forall|k: int| 0 <= k < extend_steps@.len() ==> (#[trigger] extend_steps@[k])@ == extend_steps_of(
                self@,
                pattern_meta@,
                vertex_ids_by_name(pattern_meta@),
            )[k],
    {
        let mut extend_steps: Vec<ExtendStep> = Vec::new();
        // Get all vertex labels from pattern meta as the possible extend target vertex
        let target_v_labels = pattern_meta.get_all_vertex_ids();
        let ghost targets = target_v_labels@;
        // For every possible extend target vertex label, find its all connect edges to the current pattern
        for t in 0..target_v_labels.len()
            invariant
                targets == target_v_labels@,
                extend_steps@.len() == extend_steps_of(self@, pattern_meta@, targets.take(t as int)).len(),
                forall|k: int| 0 <= k < extend_steps@.len() ==> (#[trigger] extend_steps@[k])@ == extend_steps_of(self@, pattern_meta@, targets.take(t as int))[k],
        {
            let target_v_label = target_v_labels[t];
            proof {
                assert(targets.take(t + 1).drop_last() == targets.take(t as int));
                assert(targets.take(t + 1).last() == target_v_label);
            }
            let cands = self.extend_candidates_of(pattern_meta, target_v_label);
            // The start vertex of each candidate decides which candidates cannot go together
            let mut groups: Vec<u64> = Vec::new();
            for i in 0..cands.len()
                invariant
                    groups@.len() == i,
                    forall|j: int| 0 <= j < i ==> groups@[j] == start_group(#[trigger] cands@[j].1),
            {
                let shifted: i64 = cands[i].1 as i64 - (i32::MIN as i64);
                groups.push(shifted as u64);
            }
            let ghost gs = cands@.map_values(|c: (ExtendEdge, PatternId)| start_group(c.1));
            assert(groups_of(groups@) =~= gs);
            // Get the subsets of the candidates, breadth first, with no two edges from one vertex
            let combos = index_combinations(&groups);
            let ghost combos_spec = bfs_combinations(cands@.len(), gs);
            proof {
                lemma_bfs_combinations(cands@.len(), gs);
            }
            let ghost base = extend_steps@;
            let ghost tsteps = steps_for_target(self@, pattern_meta@, target_v_label);
            assert(tsteps.len() == combos_spec.len());
            for c in 0..combos.len()
                invariant
                    combos@.len() == combos_spec.len(),
                    forall|k: int| 0 <= k < combos@.len() ==> as_ints(#[trigger] combos@[k]@) == combos_spec[k],
                    forall|k: int| 0 <= k < combos_spec.len() ==> is_combination(#[trigger] combos_spec[k], gs),
                    gs.len() == cands@.len(),
                    combos_spec == bfs_combinations(cands@.len(), gs),
                    tsteps == steps_for_target(self@, pattern_meta@, target_v_label),
                    cands@ == extend_candidates(self@, pattern_meta@, sorted_ints(self@.vertices.dom()), target_v_label),
                    gs == cands@.map_values(|c: (ExtendEdge, PatternId)| start_group(c.1)),
                    extend_steps@.len() == base.len() + c,
                    forall|k: int| 0 <= k < base.len() ==> #[trigger] extend_steps@[k] == base[k],
                    forall|k: int| 0 <= k < c ==> (#[trigger] extend_steps@[base.len() + k])@ == tsteps[k],
            {
                let combo = &combos[c];
                let mut extend_edges: Vec<ExtendEdge> = Vec::new();
                for m in 0..combo.len()
                    invariant
                        as_ints(combo@) == combos_spec[c as int],
                        is_combination(combos_spec[c as int], gs),
                        gs.len() == cands@.len(),
                        extend_edges@ == combos_spec[c as int].take(m as int).map_values(|i: int| cands@[i].0),
                {
                    assert(as_ints(combo@)[m as int] == combo@[m as int] as int);
                    extend_edges.push(cands[combo[m]].0);
                    proof {
                        assert(combos_spec[c as int].take(m + 1) == combos_spec[c as int].take(m as int).push(combos_spec[c as int][m as int]));
                        assert(extend_edges@ =~= combos_spec[c as int].take(m + 1).map_values(|i: int| cands@[i].0));
                    }
                }
                proof {
                    assert(combos_spec[c as int].take(combo@.len() as int) == combos_spec[c as int]);
                }
                let extend_step = ExtendStep::from((target_v_label, extend_edges));
                extend_steps.push(extend_step);
            }
            proof {
                let all = extend_steps_of(self@, pattern_meta@, targets.take(t + 1));
                assert(all == extend_steps_of(self@, pattern_meta@, targets.take(t as int)) + tsteps);
                assert forall|k: int| 0 <= k < extend_steps@.len() implies (#[trigger] extend_steps@[k])@ == all[k] by {
                    if k >= base.len() {
                        let i = k - base.len();
                        assert(extend_steps@[base.len() + i]@ == tsteps[i]);
                    } else {
                        assert(extend_steps@[k] == base[k]);
                    }
                }
            }
        }
        proof {
            assert(targets.take(targets.len() as int) == targets);
        }
        extend_steps
    }
}

} // verus!

verus! {

/// How many of `edges` start at vertex `v`.
pub open spec fn starts_at(edges: Seq<PatternEdge>, v: PatternId) -> nat
    decreases edges.len(),
{
    if edges.len() == 0 {
        0
    } else {
        starts_at(edges.drop_last(), v) + if edges.last().start_v_id == v { 1nat } else { 0nat }
    }
}

/// How many of `edges` end at vertex `v`.
pub open spec fn ends_at(edges: Seq<PatternEdge>, v: PatternId) -> nat
    decreases edges.len(),
{
    if edges.len() == 0 {
        0
    } else {
        ends_at(edges.drop_last(), v) + if edges.last().end_v_id == v { 1nat } else { 0nat }
    }
}

/// No two of `edges` share an id, and none starts and ends at one vertex.
pub open spec fn simple_edges(edges: Seq<PatternEdge>) -> bool {
    &&& forall|i: int, j: int| 0 <= i < j < edges.len() ==> (#[trigger] edges[i]).id != (#[trigger] edges[j]).id
    &&& forall|i: int| 0 <= i < edges.len() ==> (#[trigger] edges[i]).start_v_id != edges[i].end_v_id
}

/// The edges that vertex `v` records in direction `d`.
pub open spec fn dir_edges(v: PatternVertexView, d: PatternDirection) -> Set<PatternId> {
    v.connect_edges.dom().filter(|e: PatternId| v.connect_edges[e].1 == d)
}

/// What a pattern built from `edges` holds: one edge for each of them, and at each vertex a
/// rank of 0, degrees that count the edges starting and ending there, and as many recorded
/// connections in each direction as the degree says.
pub open spec fn counts_match(p: PatternView, edges: Seq<PatternEdge>) -> bool {
    &&& p.edges.dom().finite()
    &&& p.edges.dom().len() == edges.len()
    &&& forall|i: int| 0 <= i < edges.len() ==> p.edges.contains_key((#[trigger] edges[i]).id) && p.edges[edges[i].id] == edges[i]
    &&& forall|x: PatternId| #[trigger] p.edges.contains_key(x) ==> exists|i: int| 0 <= i < edges.len() && (#[trigger] edges[i]).id == x
    &&& forall|l: PatternLabelId, x: PatternId|
        #[trigger] p.edge_label_map.contains_key(l) && #[trigger] p.edge_label_map[l].contains(x) ==> p.edges.contains_key(x)
            && p.edges[x].label == l
    &&& forall|x: PatternId| #[trigger] p.edges.contains_key(x) ==> p.edge_label_map.contains_key(p.edges[x].label)
        && p.edge_label_map[p.edges[x].label].contains(x)
    &&& forall|v: PatternId| #[trigger] p.vertices.contains_key(v) ==> {
        &&& p.vertices[v].rank == 0
        &&& p.vertices[v].out_degree == starts_at(edges, v)
        &&& p.vertices[v].in_degree == ends_at(edges, v)
        &&& p.vertices[v].connect_edges.dom().finite()
        &&& dir_edges(p.vertices[v], PatternDirection::Out).len() == p.vertices[v].out_degree
        &&& dir_edges(p.vertices[v], PatternDirection::In).len() == p.vertices[v].in_degree
    }
    &&& forall|v: PatternId| !(#[trigger] p.vertices.contains_key(v)) ==> starts_at(edges, v) == 0 && ends_at(edges, v) == 0
}

/// Recording a new edge at a vertex adds it to the edges of its direction only.
proof fn lemma_connect_to_dir_edges(w: PatternVertexView, eid: PatternId, other: PatternId, dir: PatternDirection)
    requires
        w.connect_edges.dom().finite(),
        !w.connect_edges.contains_key(eid),
    ensures
        connect_to(w, eid, other, dir).connect_edges.dom().finite(),
        dir_edges(connect_to(w, eid, other, dir), dir).len() == dir_edges(w, dir).len() + 1,
        forall|d: PatternDirection| d != dir ==> #[trigger] dir_edges(connect_to(w, eid, other, dir), d) == dir_edges(w, d),
{
    let w2 = connect_to(w, eid, other, dir);
    assert(dir_edges(w2, dir) =~= dir_edges(w, dir).insert(eid));
    assert forall|d: PatternDirection| d != dir implies #[trigger] dir_edges(w2, d) == dir_edges(w, d) by {
        assert(dir_edges(w2, d) =~= dir_edges(w, d));
    }
    w.connect_edges.dom().lemma_len_filter(|e: PatternId| w.connect_edges[e].1 == dir);
}

/// A pattern built from simple edges has the counts that `counts_match` states.
proof fn lemma_pattern_of_edges_counts_match(edges: Seq<PatternEdge>)
    requires
        simple_edges(edges),
    ensures
        counts_match(pattern_of_edges(edges), edges),
    decreases edges.len(),
{
    if edges.len() > 0 {
        let rest = edges.drop_last();
        let e = edges.last();
        assert(simple_edges(rest)) by {
            assert forall|i: int, j: int| 0 <= i < j < rest.len() implies (#[trigger] rest[i]).id != (#[trigger] rest[j]).id by {
                assert(rest[i] == edges[i] && rest[j] == edges[j]);
            }
            assert forall|i: int| 0 <= i < rest.len() implies (#[trigger] rest[i]).start_v_id != rest[i].end_v_id by {
                assert(rest[i] == edges[i]);
            }
        }
        lemma_pattern_of_edges_counts_match(rest);
        lemma_pattern_of_edges_wf(rest);
        let p = pattern_of_edges(rest);
        let q = pattern_of_edges(edges);
        assert(q == add_edge(p, e));
        let n = edges.len() - 1;
        assert(edges[n] == e);
        assert(e.start_v_id != e.end_v_id);
        // the new edge's id is not among the earlier ones
        assert(!p.edges.contains_key(e.id)) by {
            if p.edges.contains_key(e.id) {
                let i = choose|i: int| 0 <= i < rest.len() && (#[trigger] rest[i]).id == e.id;
                assert(rest[i] == edges[i]);
            }
        }
        let s = e.start_v_id;
        let t = e.end_v_id;
        let p1 = PatternView { edges: p.edges.insert(e.id, e), edge_label_map: label_set_insert(p.edge_label_map, e.label, e.id), ..p };
        let p2 = add_endpoint(p1, s, e.start_v_label, e.id, t, PatternDirection::Out);
        assert(q == add_endpoint(p2, t, e.end_v_label, e.id, s, PatternDirection::In));
        assert(q.edges == p.edges.insert(e.id, e));
        assert(q.edges.dom() == p.edges.dom().insert(e.id));
        assert forall|i: int| 0 <= i < edges.len() implies q.edges.contains_key((#[trigger] edges[i]).id) && q.edges[edges[i].id] == edges[i] by {
            if i < n {
                assert(edges[i] == rest[i]);
                assert(edges[i].id != e.id);
            }
        }
        assert forall|x: PatternId| #[trigger] q.edges.contains_key(x) implies exists|i: int| 0 <= i < edges.len() && (#[trigger] edges[i]).id == x by {
            if x == e.id {
                assert(edges[n].id == x);
            } else {
                let i = choose|i: int| 0 <= i < rest.len() && (#[trigger] rest[i]).id == x;
                assert(edges[i] == rest[i]);
            }
        }
        assert(q.edge_label_map == label_set_insert(p.edge_label_map, e.label, e.id));
        assert forall|l: PatternLabelId, x: PatternId|
            #[trigger] q.edge_label_map.contains_key(l) && #[trigger] q.edge_label_map[l].contains(x) implies q.edges.contains_key(x)
                && q.edges[x].label == l by {
            if x != e.id {
                assert(p.edge_label_map.contains_key(l) && p.edge_label_map[l].contains(x));
            } else if l != e.label {
                assert(p.edge_label_map.contains_key(l) && p.edge_label_map[l].contains(x));
            }
        }
        assert forall|x: PatternId| #[trigger] q.edges.contains_key(x) implies q.edge_label_map.contains_key(q.edges[x].label)
            && q.edge_label_map[q.edges[x].label].contains(x) by {
            if x != e.id {
                assert(p.edges.contains_key(x));
                assert(q.edges[x] == p.edges[x]);
            }
        }
        // degrees: only the two ends of the new edge change
        assert forall|v: PatternId| #[trigger] q.vertices.contains_key(v) implies {
            &&& q.vertices[v].rank == 0
            &&& q.vertices[v].out_degree == starts_at(edges, v)
            &&& q.vertices[v].in_degree == ends_at(edges, v)
            &&& q.vertices[v].connect_edges.dom().finite()
            &&& dir_edges(q.vertices[v], PatternDirection::Out).len() == q.vertices[v].out_degree
            &&& dir_edges(q.vertices[v], PatternDirection::In).len() == q.vertices[v].in_degree
        } by {
            assert(starts_at(edges, v) == starts_at(rest, v) + if s == v { 1nat } else { 0nat });
            assert(ends_at(edges, v) == ends_at(rest, v) + if t == v { 1nat } else { 0nat });
            if v == s {
                let w = if p.vertices.contains_key(s) { p.vertices[s] } else { isolated_vertex(s, e.start_v_label) };
                if p.vertices.contains_key(s) {
                    assert(!w.connect_edges.contains_key(e.id));
                } else {
                    assert(w.connect_edges.dom() =~= Set::<PatternId>::empty());
                    assert(dir_edges(w, PatternDirection::Out) =~= Set::<PatternId>::empty());
                    assert(dir_edges(w, PatternDirection::In) =~= Set::<PatternId>::empty());
                }
                lemma_connect_to_dir_edges(w, e.id, t, PatternDirection::Out);
                assert(q.vertices[v] == connect_to(w, e.id, t, PatternDirection::Out));
            } else if v == t {
                let w = if p.vertices.contains_key(t) { p.vertices[t] } else { isolated_vertex(t, e.end_v_label) };
                if p.vertices.contains_key(t) {
                    assert(!w.connect_edges.contains_key(e.id));
                } else {
                    assert(w.connect_edges.dom() =~= Set::<PatternId>::empty());
                    assert(dir_edges(w, PatternDirection::Out) =~= Set::<PatternId>::empty());
                    assert(dir_edges(w, PatternDirection::In) =~= Set::<PatternId>::empty());
                }
                assert(p2.vertices.contains_key(t) == p.vertices.contains_key(t));
                lemma_connect_to_dir_edges(w, e.id, s, PatternDirection::In);
                assert(q.vertices[v] == connect_to(w, e.id, s, PatternDirection::In));
            } else {
                assert(q.vertices[v] == p.vertices[v]);
            }
        }
        assert forall|v: PatternId| !(#[trigger] q.vertices.contains_key(v)) implies starts_at(edges, v) == 0 && ends_at(edges, v) == 0 by {
            assert(v != s && v != t);
            assert(!p.vertices.contains_key(v));
        }
        assert(q.edges.dom().finite());
        assert(q.edges.dom().len() == edges.len());
        assert(counts_match(q, edges));
    } else {
        let q = pattern_of_edges(edges);
        assert(q == empty_pattern());
        assert(q.edges.dom() =~= Set::<PatternId>::empty());
        assert forall|v: PatternId| !(#[trigger] q.vertices.contains_key(v)) implies starts_at(edges, v) == 0 && ends_at(edges, v) == 0 by {}
        assert(q.edges.dom().finite());
        assert(q.edges.dom().len() == edges.len());
        assert(forall|v: PatternId| !(#[trigger] q.vertices.contains_key(v)));
        assert(counts_match(q, edges));
    }
}

/// Through distinct edges, a vertex has as many connection infos in a direction as it records
/// edges of that direction among them.
proof fn lemma_connection_infos_len(p: PatternView, v: PatternVertexView, ids: Seq<PatternId>, d: PatternDirection)
    requires
        ids.no_duplicates(),
    ensures
        connection_infos(p, v, ids, d).len() == ids.to_set().filter(|e: PatternId| v.connect_edges[e].1 == d).len(),
    decreases ids.len(),
{
    broadcast use vstd::seq_lib::seq_to_set_is_finite;
    let f = |e: PatternId| v.connect_edges[e].1 == d;
    if ids.len() == 0 {
        assert(ids.to_set().filter(f) =~= Set::<PatternId>::empty());
    } else {
        let rest = ids.drop_last();
        let x = ids.last();
        assert(rest.no_duplicates()) by {
            assert forall|i: int, j: int| 0 <= i < rest.len() && 0 <= j < rest.len() && i != j implies rest[i] != rest[j] by {
                assert(rest[i] == ids[i] && rest[j] == ids[j]);
            }
        }
        lemma_connection_infos_len(p, v, rest, d);
        assert(ids == rest.push(x));
        rest.lemma_push_to_set_commute(x);
        assert(!rest.to_set().contains(x)) by {
            if rest.to_set().contains(x) {
                let i = choose|i: int| 0 <= i < rest.len() && rest[i] == x;
                assert(ids[i] == ids[ids.len() - 1]);
            }
        }
        rest.to_set().lemma_len_filter(f);
        if f(x) {
            assert(ids.to_set().filter(f) =~= rest.to_set().filter(f).insert(x));
        } else {
            assert(ids.to_set().filter(f) =~= rest.to_set().filter(f));
        }
    }
}

/// A vertex has as many neighbour pairs in a direction as it records edges of that direction.
proof fn lemma_neighbour_pairs_len(p: PatternView, v: PatternVertexView, d: PatternDirection)
    requires
        v.connect_edges.dom().finite(),
    ensures
        neighbour_pairs(p, v, d).len() == dir_edges(v, d).len(),
{
    broadcast use vstd::seq_lib::to_multiset_len;
    let dom = v.connect_edges.dom();
    let ids = sorted_ints(dom);
    lemma_sorted_ints_exists(dom);
    assert(ids.no_duplicates()) by {
        assert forall|i: int, j: int| 0 <= i < ids.len() && 0 <= j < ids.len() && i != j implies ids[i] != ids[j] by {
            if i < j {
                assert(ids[i] < ids[j]);
            } else {
                assert(ids[j] < ids[i]);
            }
        }
    }
    lemma_connection_infos_len(p, v, ids, d);
    assert(ids.to_set().filter(|e: PatternId| v.connect_edges[e].1 == d) =~= dir_edges(v, d));
    let infos = connection_infos(p, v, ids, d);
    lemma_info_order_total();
    infos.lemma_sort_by_ensures(info_order());
    assert(infos.sort_by(info_order()).len() == infos.len()) by {
        assert(infos.to_multiset().len() == infos.sort_by(info_order()).to_multiset().len());
    }
}

/// A pattern built from edges with distinct ids, none of which starts and ends at one vertex,
/// has one edge for each of them, and each edge label lists exactly the edges of that label.
/// Every vertex has rank 0, as many out edges as edges start at it, as many in edges as end
/// at it and as many connections as both together, and no other vertex is the end of an
/// edge; each vertex label lists exactly the vertices of that label; the degrees agree with
/// the connections that each vertex records, so the pattern is ready to be ranked.
pub proof fn lemma_pattern_of_edges_counts(edges: Seq<PatternEdge>)
    requires
        simple_edges(edges),
    ensures
        pattern_of_edges(edges).edges.dom().len() == edges.len(),
        forall|l: PatternLabelId, x: PatternId|
            #[trigger] pattern_of_edges(edges).edge_label_map.contains_key(l) && #[trigger] pattern_of_edges(edges).edge_label_map[l].contains(x)
                <==> pattern_of_edges(edges).edges.contains_key(x) && pattern_of_edges(edges).edges[x].label == l,
        forall|v: PatternId| #[trigger] pattern_of_edges(edges).vertices.contains_key(v) ==> {
            &&& pattern_of_edges(edges).vertices[v].rank == 0
            &&& pattern_of_edges(edges).vertices[v].out_degree == starts_at(edges, v)
            &&& pattern_of_edges(edges).vertices[v].in_degree == ends_at(edges, v)
            &&& pattern_of_edges(edges).vertices[v].connect_edges.dom().len() == starts_at(edges, v) + ends_at(edges, v)
        },
        forall|v: PatternId| !(#[trigger] pattern_of_edges(edges).vertices.contains_key(v)) ==> starts_at(edges, v) == 0 && ends_at(edges, v) == 0,
        forall|l: PatternLabelId, v: PatternId|
            #[trigger] pattern_of_edges(edges).vertex_label_map.contains_key(l) && #[trigger] pattern_of_edges(edges).vertex_label_map[l].contains(v)
                <==> pattern_of_edges(edges).vertices.contains_key(v) && pattern_of_edges(edges).vertices[v].label == l,
        ranking_ready(pattern_of_edges(edges)),
        edges_have_ends(pattern_of_edges(edges)),
        degrees_consistent(pattern_of_edges(edges)),
{
    let p = pattern_of_edges(edges);
    lemma_pattern_of_edges_counts_match(edges);
    lemma_pattern_of_edges_wf(edges);
    assert forall|v: PatternId| #[trigger] p.vertices.contains_key(v) implies p.vertices[v].connect_edges.dom().len() == starts_at(edges, v)
        + ends_at(edges, v) by {
        let x = p.vertices[v];
        let outs = dir_edges(x, PatternDirection::Out);
        let ins = dir_edges(x, PatternDirection::In);
        assert(x.connect_edges.dom() =~= outs + ins);
        assert(outs.disjoint(ins));
        x.connect_edges.dom().lemma_len_filter(|e: PatternId| x.connect_edges[e].1 == PatternDirection::Out);
        x.connect_edges.dom().lemma_len_filter(|e: PatternId| x.connect_edges[e].1 == PatternDirection::In);
        vstd::set_lib::lemma_set_disjoint_lens(outs, ins);
    }
    assert forall|l: PatternLabelId, x: PatternId|
        #[trigger] p.edge_label_map.contains_key(l) && #[trigger] p.edge_label_map[l].contains(x) <==> p.edges.contains_key(x) && p.edges[x].label == l by {
        if p.edges.contains_key(x) && p.edges[x].label == l {
            assert(p.edge_label_map.contains_key(p.edges[x].label));
        }
    }
    assert forall|l: PatternLabelId, v: PatternId|
        #[trigger] p.vertex_label_map.contains_key(l) && #[trigger] p.vertex_label_map[l].contains(v) <==> p.vertices.contains_key(v) && p.vertices[v].label == l by {
        if p.vertices.contains_key(v) && p.vertices[v].label == l {
            assert(p.vertex_label_map.contains_key(p.vertices[v].label));
        }
    }
    assert forall|v: PatternId| #[trigger] p.vertices.contains_key(v) implies {
        &&& neighbour_pairs(p, p.vertices[v], PatternDirection::Out).len() == p.vertices[v].out_degree
        &&& neighbour_pairs(p, p.vertices[v], PatternDirection::In).len() == p.vertices[v].in_degree
    } by {
        lemma_neighbour_pairs_len(p, p.vertices[v], PatternDirection::Out);
        lemma_neighbour_pairs_len(p, p.vertices[v], PatternDirection::In);
    }
}

/// Every vertex records finitely many connections, as many in each direction as its degree
/// in that direction.
pub open spec fn degrees_recorded(p: PatternView) -> bool {
    forall|v: PatternId| #[trigger] p.vertices.contains_key(v) ==> {
        &&& p.vertices[v].connect_edges.dom().finite()
        &&& dir_edges(p.vertices[v], PatternDirection::Out).len() == p.vertices[v].out_degree
        &&& dir_edges(p.vertices[v], PatternDirection::In).len() == p.vertices[v].in_degree
    }
}

/// Degrees that agree with the recorded connections agree with the neighbour pairs, and
/// back, where each vertex records finitely many connections.
proof fn lemma_degrees_recorded_iff_consistent(p: PatternView)
    requires
        connections_finite(p),
    ensures
        degrees_recorded(p) <==> degrees_consistent(p),
{
    assert forall|v: PatternId| #[trigger] p.vertices.contains_key(v) implies {
        &&& neighbour_pairs(p, p.vertices[v], PatternDirection::Out).len() == dir_edges(p.vertices[v], PatternDirection::Out).len()
        &&& neighbour_pairs(p, p.vertices[v], PatternDirection::In).len() == dir_edges(p.vertices[v], PatternDirection::In).len()
    } by {
        lemma_neighbour_pairs_len(p, p.vertices[v], PatternDirection::Out);
        lemma_neighbour_pairs_len(p, p.vertices[v], PatternDirection::In);
    }
}

/// Connecting the attachments keeps the degrees of every vertex, the new one included, in
/// agreement with the connections it records.
proof fn lemma_attach_all_degrees(p: PatternView, nv: PatternVertexView, atts: Seq<(ExtendEdge, PatternId)>)
    requires
        p.wf(),
        degrees_recorded(p),
        p.edges.dom().finite(),
        2 * (p.edges.dom().len() + atts.len()) <= i32::MAX,
        nv.connect_edges == Map::<PatternId, (PatternId, PatternDirection)>::empty(),
        nv.out_degree == 0,
        nv.in_degree == 0,
        forall|j: int| 0 <= j < atts.len() ==> p.vertices.contains_key(#[trigger] atts[j].1),
    ensures
        degrees_recorded(attach_all(p, nv, atts).0),
        attach_all(p, nv, atts).1.connect_edges.dom().finite(),
        dir_edges(attach_all(p, nv, atts).1, PatternDirection::Out).len() == attach_all(p, nv, atts).1.out_degree,
        dir_edges(attach_all(p, nv, atts).1, PatternDirection::In).len() == attach_all(p, nv, atts).1.in_degree,
    decreases atts.len(),
{
    if atts.len() > 0 {
        let prev = atts.drop_last();
        assert forall|j: int| 0 <= j < prev.len() implies p.vertices.contains_key(#[trigger] prev[j].1) by {
            assert(prev[j] == atts[j]);
        }
        lemma_attach_all_degrees(p, nv, prev);
        lemma_attach_all(p, nv, prev);
        lemma_attach_all_wf(p, nv, prev);
        let r0 = attach_all(p, nv, prev);
        let r = attach_all(p, nv, atts);
        lemma_next_free_id(r0.0.edges.dom());
        let id = next_free_id(r0.0.edges.dom(), r0.0.edges.dom().len() as int);
        let (e, u) = atts[atts.len() - 1];
        assert(p.vertices.contains_key(u));
        assert(!r0.0.edges.contains_key(id));
        assert(!r0.0.vertices[u].connect_edges.contains_key(id));
        assert(!r0.1.connect_edges.contains_key(id));
        lemma_connect_to_dir_edges(r0.0.vertices[u], id, nv.id, e.dir);
        lemma_connect_to_dir_edges(r0.1, id, u, reverse_dir(e.dir));
        assert(r.1 == connect_to(r0.1, id, u, reverse_dir(e.dir)));
        assert forall|v: PatternId| #[trigger] r.0.vertices.contains_key(v) implies {
            &&& r.0.vertices[v].connect_edges.dom().finite()
            &&& dir_edges(r.0.vertices[v], PatternDirection::Out).len() == r.0.vertices[v].out_degree
            &&& dir_edges(r.0.vertices[v], PatternDirection::In).len() == r.0.vertices[v].in_degree
        } by {
            if v == u {
                assert(r.0.vertices[v] == connect_to(r0.0.vertices[u], id, nv.id, e.dir));
            } else {
                assert(r.0.vertices[v] == r0.0.vertices[v]);
                assert(r0.0.vertices.contains_key(v));
            }
        }
    } else {
        assert(nv.connect_edges.dom() =~= Set::<PatternId>::empty());
        assert(dir_edges(nv, PatternDirection::Out) =~= Set::<PatternId>::empty());
        assert(dir_edges(nv, PatternDirection::In) =~= Set::<PatternId>::empty());
    }
}

/// Extending a pattern whose degrees agree with its neighbour pairs gives a pattern whose
/// degrees agree with its neighbour pairs, so it can be ranked again.
pub proof fn lemma_extend_degrees_consistent(p: PatternView, step: ExtendStepView)
    requires
        p.wf(),
        connections_finite(p),
        degrees_consistent(p),
        p.vertices.dom().finite(),
        step.extend_edges.dom().finite(),
        p.edges.dom().finite(),
        step_fits(p, step),
        2 * p.vertices.dom().len() <= i32::MAX,
        2 * (p.edges.dom().len() + extend_edges_num(step)) <= i32::MAX,
    ensures
        connections_finite(extended_pattern(p, step)),
        degrees_consistent(extended_pattern(p, step)),
{
    lemma_degrees_recorded_iff_consistent(p);
    let keys = sorted_pairs(step.extend_edges.dom());
    lemma_attachments_len(p, step, keys, keys.len() as int);
    assert(keys.take(keys.len() as int) == keys);
    lemma_sorted_pairs_exists(step.extend_edges.dom());
    assert forall|i: int| 0 <= i < keys.len() implies step.extend_edges[#[trigger] keys[i]].len() <= equivalent_vertices(p, keys[i].0, keys[i].1).len() by {
        assert(keys.to_set().contains(keys[i]));
        assert(step.extend_edges.contains_key(keys[i]));
    }
    lemma_attachments_in_pattern(p, step, keys);
    lemma_next_free_id(p.vertices.dom());
    let vid = next_free_id(p.vertices.dom(), p.vertices.dom().len() as int);
    let nv = isolated_vertex(vid, step.target_v_label);
    let atts = attachments(p, step);
    lemma_attach_all_degrees(p, nv, atts);
    let r = attach_all(p, nv, atts);
    let q = extended_pattern(p, step);
    assert forall|v: PatternId| #[trigger] q.vertices.contains_key(v) implies {
        &&& q.vertices[v].connect_edges.dom().finite()
        &&& dir_edges(q.vertices[v], PatternDirection::Out).len() == q.vertices[v].out_degree
        &&& dir_edges(q.vertices[v], PatternDirection::In).len() == q.vertices[v].in_degree
    } by {
        if v != vid {
            assert(r.0.vertices.contains_key(v));
        }
    }
    lemma_degrees_recorded_iff_consistent(q);
}

} // verus!

verus! {

/// The (label of the vertex at the other end, edge label) of each connection of `v` in
/// direction `d`, counted with multiplicity.
pub open spec fn neighbour_label_counts(p: PatternView, v: PatternVertexView, d: PatternDirection) -> Multiset<(i32, i32)> {
    connection_infos(p, v, sorted_ints(v.connect_edges.dom()), d).map_values(|t: ConnectionInfo| (t.4, t.2)).to_multiset()
}

/// Sequences with the same members, counted with multiplicity, still have them after the same
/// function is applied to each member.
proof fn lemma_map_values_multiset<A, B>(x: Seq<A>, y: Seq<A>, f: spec_fn(A) -> B)
    requires
        x.to_multiset() == y.to_multiset(),
    ensures
        x.map_values(f).to_multiset() == y.map_values(f).to_multiset(),
    decreases x.len(),
{
    broadcast use vstd::seq_lib::group_to_multiset_ensures;
    broadcast use vstd::multiset::group_multiset_axioms;
    if x.len() == 0 {
        assert(y.len() == 0) by {
            assert(y.to_multiset().len() == 0);
        }
        assert(x.map_values(f) =~= Seq::<B>::empty());
        assert(y.map_values(f) =~= Seq::<B>::empty());
    } else {
        let a = x.last();
        let xr = x.drop_last();
        assert(x == xr.push(a));
        assert(x.to_multiset() =~= xr.to_multiset().insert(a));
        assert(y.to_multiset().count(a) > 0);
        assert(y.contains(a));
        let j = choose|j: int| 0 <= j < y.len() && y[j] == a;
        let yr = y.remove(j);
        assert(yr.to_multiset() =~= y.to_multiset().remove(a));
        assert(xr.to_multiset() =~= yr.to_multiset());
        lemma_map_values_multiset(xr, yr, f);
        assert(x.map_values(f) =~= xr.map_values(f).push(f(a)));
        assert(y.map_values(f).remove(j) =~= yr.map_values(f));
        assert(y.map_values(f)[j] == f(a));
        assert(y.map_values(f).remove(j).to_multiset() =~= y.map_values(f).to_multiset().remove(f(a)));
        assert(y.map_values(f).to_multiset().count(f(a)) > 0) by {
            assert(y.map_values(f).contains(f(a)));
        }
        assert(x.map_values(f).to_multiset() =~= y.map_values(f).to_multiset());
    }
}

/// Pair sequences of one length that compare equal from position `i` on agree there.
proof fn lemma_pairs_order_zero(a: Seq<(i32, i32)>, b: Seq<(i32, i32)>, i: int)
    requires
        a.len() == b.len(),
        0 <= i <= a.len(),
        pairs_order_from(a, b, i) == 0,
    ensures
        forall|j: int| i <= j < a.len() ==> a[j] == b[j],
    decreases a.len() - i,
{
    if i < a.len() {
        lemma_pairs_order_zero(a, b, i + 1);
    }
}

/// The neighbour pairs of a vertex hold the same (neighbour label, edge label) pairs as its
/// connections, counted with multiplicity.
proof fn lemma_neighbour_pairs_counts(p: PatternView, v: PatternVertexView, d: PatternDirection)
    ensures
        neighbour_pairs(p, v, d).to_multiset() == neighbour_label_counts(p, v, d),
{
    let infos = connection_infos(p, v, sorted_ints(v.connect_edges.dom()), d);
    lemma_info_order_total();
    infos.lemma_sort_by_ensures(info_order());
    lemma_map_values_multiset(infos.sort_by(info_order()), infos, |t: ConnectionInfo| (t.4, t.2));
}

/// Two vertices that the initial ranking cannot tell apart have the same label and degrees,
/// and, in each direction, the same (label of the vertex at the other end, edge label) pairs
/// over their connections, each as many times.
pub proof fn lemma_initial_tie_same_neighbours(p: PatternView, a: PatternId, b: PatternId)
    requires
        degrees_consistent(p),
        p.vertices.contains_key(a),
        p.vertices.contains_key(b),
        initial_order(p, a, b) == 0,
    ensures
        p.vertices[a].label == p.vertices[b].label,
        p.vertices[a].out_degree == p.vertices[b].out_degree,
        p.vertices[a].in_degree == p.vertices[b].in_degree,
        neighbour_label_counts(p, p.vertices[a], PatternDirection::Out) == neighbour_label_counts(p, p.vertices[b], PatternDirection::Out),
        neighbour_label_counts(p, p.vertices[a], PatternDirection::In) == neighbour_label_counts(p, p.vertices[b], PatternDirection::In),
{
    let va = p.vertices[a];
    let vb = p.vertices[b];
    if a != b {
        let oa = neighbour_pairs(p, va, PatternDirection::Out);
        let ob = neighbour_pairs(p, vb, PatternDirection::Out);
        let ia = neighbour_pairs(p, va, PatternDirection::In);
        let ib = neighbour_pairs(p, vb, PatternDirection::In);
        lemma_pairs_order_antisymmetric(oa, ob, 0);
        lemma_pairs_order_zero(oa, ob, 0);
        lemma_pairs_order_zero(ia, ib, 0);
        assert(oa =~= ob);
        assert(ia =~= ib);
    }
    lemma_neighbour_pairs_counts(p, va, PatternDirection::Out);
    lemma_neighbour_pairs_counts(p, vb, PatternDirection::Out);
    lemma_neighbour_pairs_counts(p, va, PatternDirection::In);
    lemma_neighbour_pairs_counts(p, vb, PatternDirection::In);
}

/// Every connection that a vertex records goes through an edge that records the label of that
/// vertex at its own end and the label of the vertex at the other end at the other.
pub open spec fn labels_recorded(p: PatternView) -> bool {
    forall|v: PatternId, e: PatternId| #[trigger] p.vertices.contains_key(v) && #[trigger] p.vertices[v].connect_edges.contains_key(e)
        ==> {
        let c = p.vertices[v].connect_edges[e];
        let edge = p.edges[e];
        if c.1 == PatternDirection::Out {
            edge.start_v_label == p.vertices[v].label && edge.end_v_label == p.vertices[c.0].label
        } else {
            edge.end_v_label == p.vertices[v].label && edge.start_v_label == p.vertices[c.0].label
        }
    }
}

/// How a connection info of a vertex labelled `label` in direction `d` looks where labels are
/// recorded: the vertex's own end carries its label, the other end the neighbour's label.
pub open spec fn info_shape(label: i32, d: PatternDirection, t: ConnectionInfo) -> bool {
    if d == PatternDirection::Out {
        t.0 == label && t.1 == t.4
    } else {
        t.1 == label && t.0 == t.4
    }
}

/// The lexicographic order of pairs, not strict.
pub open spec fn pair_le(a: (i32, i32), b: (i32, i32)) -> bool {
    a.0 < b.0 || (a.0 == b.0 && a.1 <= b.1)
}

/// The connection infos of a vertex whose connections record labels all have its shape.
proof fn lemma_infos_shape(p: PatternView, x: PatternId, ids: Seq<PatternId>, d: PatternDirection)
    requires
        labels_recorded(p),
        p.vertices.contains_key(x),
        forall|k: int| 0 <= k < ids.len() ==> p.vertices[x].connect_edges.contains_key(#[trigger] ids[k]),
    ensures
        forall|k: int| 0 <= k < connection_infos(p, p.vertices[x], ids, d).len() ==> info_shape(
            p.vertices[x].label,
            d,
            #[trigger] connection_infos(p, p.vertices[x], ids, d)[k],
        ),
    decreases ids.len(),
{
    if ids.len() > 0 {
        let front = ids.drop_last();
        assert forall|k: int| 0 <= k < front.len() implies p.vertices[x].connect_edges.contains_key(#[trigger] front[k]) by {
            assert(front[k] == ids[k]);
        }
        lemma_infos_shape(p, x, front, d);
        let e = ids.last();
        assert(p.vertices[x].connect_edges.contains_key(ids[ids.len() - 1]));
        assert(p.vertices.contains_key(x) && p.vertices[x].connect_edges.contains_key(e));
        let prev = connection_infos(p, p.vertices[x], front, d);
        let all = connection_infos(p, p.vertices[x], ids, d);
        assert forall|k: int| 0 <= k < all.len() implies info_shape(p.vertices[x].label, d, #[trigger] all[k]) by {
            if k < prev.len() {
                assert(all[k] == prev[k]);
            }
        }
    }
}

/// Two sequences of pairs, each in increasing order, with the same members counted with
/// multiplicity, are the same sequence.
proof fn lemma_sorted_pairs_same(x: Seq<(i32, i32)>, y: Seq<(i32, i32)>)
    requires
        forall|i: int, j: int| 0 <= i < j < x.len() ==> pair_le(#[trigger] x[i], #[trigger] x[j]),
        forall|i: int, j: int| 0 <= i < j < y.len() ==> pair_le(#[trigger] y[i], #[trigger] y[j]),
        x.to_multiset() == y.to_multiset(),
    ensures
        x == y,
    decreases x.len(),
{
    broadcast use vstd::seq_lib::group_to_multiset_ensures;
    broadcast use vstd::multiset::group_multiset_axioms;
    assert(x.len() == y.len()) by {
        vstd::seq_lib::to_multiset_len(x);
        vstd::seq_lib::to_multiset_len(y);
    }
    if x.len() > 0 {
        assert(x.to_multiset().count(x[0]) > 0) by {
            assert(x.contains(x[0]));
        }
        assert(y.contains(x[0]));
        assert(y.to_multiset().count(y[0]) > 0) by {
            assert(y.contains(y[0]));
        }
        assert(x.contains(y[0]));
        let i = choose|i: int| 0 <= i < y.len() && y[i] == x[0];
        let j = choose|j: int| 0 <= j < x.len() && x[j] == y[0];
        if i > 0 {
            assert(pair_le(y[0], y[i]));
        }
        if j > 0 {
            assert(pair_le(x[0], x[j]));
        }
        assert(x[0] == y[0]);
        let xr = x.remove(0);
        let yr = y.remove(0);
        assert(xr.to_multiset() =~= x.to_multiset().remove(x[0]));
        assert(yr.to_multiset() =~= y.to_multiset().remove(y[0]));
        assert forall|a: int, b: int| 0 <= a < b < xr.len() implies pair_le(#[trigger] xr[a], #[trigger] xr[b]) by {
            assert(xr[a] == x[a + 1] && xr[b] == x[b + 1]);
        }
        assert forall|a: int, b: int| 0 <= a < b < yr.len() implies pair_le(#[trigger] yr[a], #[trigger] yr[b]) by {
            assert(yr[a] == y[a + 1] && yr[b] == y[b + 1]);
        }
        lemma_sorted_pairs_same(xr, yr);
        assert(x =~= seq![x[0]] + xr);
        assert(y =~= seq![y[0]] + yr);
    }
}

/// A pair sequence compares equal to itself.
proof fn lemma_pairs_order_self(a: Seq<(i32, i32)>, i: int)
    ensures
        pairs_order_from(a, a, i) == 0,
    decreases a.len() - i,
{
    if 0 <= i < a.len() {
        lemma_pairs_order_self(a, i + 1);
    }
}

/// Where labels are recorded, the neighbour pairs of a vertex come in increasing order.
proof fn lemma_neighbour_pairs_sorted(p: PatternView, x: PatternId, d: PatternDirection)
    requires
        labels_recorded(p),
        connections_finite(p),
        p.vertices.contains_key(x),
    ensures
        forall|i: int, j: int|
            0 <= i < j < neighbour_pairs(p, p.vertices[x], d).len() ==> pair_le(
                #[trigger] neighbour_pairs(p, p.vertices[x], d)[i],
                #[trigger] neighbour_pairs(p, p.vertices[x], d)[j],
            ),
{
    broadcast use vstd::seq_lib::group_to_multiset_ensures;
    let v = p.vertices[x];
    let ids = sorted_ints(v.connect_edges.dom());
    lemma_sorted_ints_exists(v.connect_edges.dom());
    assert forall|k: int| 0 <= k < ids.len() implies v.connect_edges.contains_key(#[trigger] ids[k]) by {
        assert(ids.to_set().contains(ids[k]));
    }
    lemma_infos_shape(p, x, ids, d);
    let infos = connection_infos(p, v, ids, d);
    lemma_info_order_total();
    infos.lemma_sort_by_ensures(info_order());
    let sorted = infos.sort_by(info_order());
    assert forall|k: int| 0 <= k < sorted.len() implies info_shape(v.label, d, #[trigger] sorted[k]) by {
        assert(sorted.to_multiset().count(sorted[k]) > 0) by {
            assert(sorted.contains(sorted[k]));
        }
        assert(infos.contains(sorted[k]));
        let m = choose|m: int| 0 <= m < infos.len() && infos[m] == sorted[k];
    }
    let np = neighbour_pairs(p, v, d);
    assert forall|i: int, j: int| 0 <= i < j < np.len() implies pair_le(#[trigger] np[i], #[trigger] np[j]) by {
        assert(info_order()(sorted[i], sorted[j]));
        assert(info_le(sorted[i], sorted[j]));
        assert(info_shape(v.label, d, sorted[i]));
        assert(info_shape(v.label, d, sorted[j]));
    }
}

/// Where every edge records the labels of the vertices it joins, two vertices with the same
/// label and degrees that have, in each direction, the same (label of the vertex at the other
/// end, edge label) pairs over their connections, each as many times, are tied by the initial
/// ranking.
pub proof fn lemma_same_neighbours_initial_tie(p: PatternView, a: PatternId, b: PatternId)
    requires
        labels_recorded(p),
        connections_finite(p),
        p.vertices.contains_key(a),
        p.vertices.contains_key(b),
        p.vertices[a].label == p.vertices[b].label,
        p.vertices[a].out_degree == p.vertices[b].out_degree,
        p.vertices[a].in_degree == p.vertices[b].in_degree,
        neighbour_label_counts(p, p.vertices[a], PatternDirection::Out) == neighbour_label_counts(p, p.vertices[b], PatternDirection::Out),
        neighbour_label_counts(p, p.vertices[a], PatternDirection::In) == neighbour_label_counts(p, p.vertices[b], PatternDirection::In),
    ensures
        initial_order(p, a, b) == 0,
{
    let va = p.vertices[a];
    let vb = p.vertices[b];
    if a != b {
        lemma_neighbour_pairs_counts(p, va, PatternDirection::Out);
        lemma_neighbour_pairs_counts(p, vb, PatternDirection::Out);
        lemma_neighbour_pairs_counts(p, va, PatternDirection::In);
        lemma_neighbour_pairs_counts(p, vb, PatternDirection::In);
        lemma_neighbour_pairs_sorted(p, a, PatternDirection::Out);
        lemma_neighbour_pairs_sorted(p, b, PatternDirection::Out);
        lemma_neighbour_pairs_sorted(p, a, PatternDirection::In);
        lemma_neighbour_pairs_sorted(p, b, PatternDirection::In);
        lemma_sorted_pairs_same(neighbour_pairs(p, va, PatternDirection::Out), neighbour_pairs(p, vb, PatternDirection::Out));
        lemma_sorted_pairs_same(neighbour_pairs(p, va, PatternDirection::In), neighbour_pairs(p, vb, PatternDirection::In));
        lemma_pairs_order_self(neighbour_pairs(p, va, PatternDirection::Out), 0);
        lemma_pairs_order_self(neighbour_pairs(p, va, PatternDirection::In), 0);
    }
}

/// A vertex id is given one label by all the edges that name it.
pub open spec fn labels_consistent(edges: Seq<PatternEdge>) -> bool {
    forall|i: int, j: int| 0 <= i < edges.len() && 0 <= j < edges.len() ==> {
        &&& ((#[trigger] edges[i]).start_v_id == (#[trigger] edges[j]).start_v_id ==> edges[i].start_v_label == edges[j].start_v_label)
        &&& (edges[i].start_v_id == edges[j].end_v_id ==> edges[i].start_v_label == edges[j].end_v_label)
        &&& (edges[i].end_v_id == edges[j].end_v_id ==> edges[i].end_v_label == edges[j].end_v_label)
    }
}

/// What a pattern built from `edges` records of their ends: each connection of a vertex goes
/// through an edge that starts (out) or ends (in) there and ends or starts at the other vertex;
/// each edge's ends are vertices with the labels the edge gives them; and each vertex is an
/// end of one of the edges.
pub open spec fn ends_recorded(p: PatternView, edges: Seq<PatternEdge>) -> bool {
    &&& forall|v: PatternId, e: PatternId| #[trigger] p.vertices.contains_key(v) && #[trigger] p.vertices[v].connect_edges.contains_key(e)
        ==> {
        let c = p.vertices[v].connect_edges[e];
        &&& p.edges.contains_key(e)
        &&& c.1 == PatternDirection::Out ==> p.edges[e].start_v_id == v && p.edges[e].end_v_id == c.0
        &&& c.1 == PatternDirection::In ==> p.edges[e].end_v_id == v && p.edges[e].start_v_id == c.0
    }
    &&& forall|i: int| 0 <= i < edges.len() ==> {
        &&& p.vertices.contains_key((#[trigger] edges[i]).start_v_id)
        &&& p.vertices[edges[i].start_v_id].label == edges[i].start_v_label
        &&& p.vertices.contains_key(edges[i].end_v_id)
        &&& p.vertices[edges[i].end_v_id].label == edges[i].end_v_label
    }
    &&& forall|v: PatternId| #[trigger] p.vertices.contains_key(v) ==> exists|i: int|
        0 <= i < edges.len() && ((#[trigger] edges[i]).start_v_id == v || edges[i].end_v_id == v)
}

/// A pattern built from edges with distinct ids, none of which starts and ends at one vertex,
/// records their ends as `ends_recorded` says.
proof fn lemma_pattern_of_edges_ends(edges: Seq<PatternEdge>)
    requires
        simple_edges(edges),
        labels_consistent(edges),
    ensures
        ends_recorded(pattern_of_edges(edges), edges),
    decreases edges.len(),
{
    if edges.len() > 0 {
        let rest = edges.drop_last();
        let e = edges.last();
        let n = edges.len() - 1;
        assert(edges[n] == e);
        assert(simple_edges(rest)) by {
            assert forall|i: int, j: int| 0 <= i < j < rest.len() implies (#[trigger] rest[i]).id != (#[trigger] rest[j]).id by {
                assert(rest[i] == edges[i] && rest[j] == edges[j]);
            }
            assert forall|i: int| 0 <= i < rest.len() implies (#[trigger] rest[i]).start_v_id != rest[i].end_v_id by {
                assert(rest[i] == edges[i]);
            }
        }
        assert(labels_consistent(rest)) by {
            assert forall|i: int, j: int| 0 <= i < rest.len() && 0 <= j < rest.len() implies {
                &&& ((#[trigger] rest[i]).start_v_id == (#[trigger] rest[j]).start_v_id ==> rest[i].start_v_label == rest[j].start_v_label)
                &&& (rest[i].start_v_id == rest[j].end_v_id ==> rest[i].start_v_label == rest[j].end_v_label)
                &&& (rest[i].end_v_id == rest[j].end_v_id ==> rest[i].end_v_label == rest[j].end_v_label)
            } by {
                assert(rest[i] == edges[i] && rest[j] == edges[j]);
            }
        }
        lemma_pattern_of_edges_ends(rest);
        lemma_pattern_of_edges_counts_match(rest);
        let p = pattern_of_edges(rest);
        let q = pattern_of_edges(edges);
        assert(q == add_edge(p, e));
        assert(!p.edges.contains_key(e.id)) by {
            if p.edges.contains_key(e.id) {
                let i = choose|i: int| 0 <= i < rest.len() && (#[trigger] rest[i]).id == e.id;
                assert(rest[i] == edges[i]);
            }
        }
        let s = e.start_v_id;
        let t = e.end_v_id;
        assert(s != t);
        // the label that an existing end of the new edge already has is the one the edge gives
        assert(p.vertices.contains_key(s) ==> p.vertices[s].label == e.start_v_label) by {
            if p.vertices.contains_key(s) {
                let i = choose|i: int| 0 <= i < rest.len() && ((#[trigger] rest[i]).start_v_id == s || rest[i].end_v_id == s);
                assert(rest[i] == edges[i]);
            }
        }
        assert(p.vertices.contains_key(t) ==> p.vertices[t].label == e.end_v_label) by {
            if p.vertices.contains_key(t) {
                let i = choose|i: int| 0 <= i < rest.len() && ((#[trigger] rest[i]).start_v_id == t || rest[i].end_v_id == t);
                assert(rest[i] == edges[i]);
            }
        }
        assert forall|v: PatternId| #[trigger] q.vertices.contains_key(v) implies {
            &&& q.vertices[v].label == (if p.vertices.contains_key(v) { p.vertices[v].label } else if v == s { e.start_v_label } else { e.end_v_label })
            &&& (v == s || v == t || p.vertices.contains_key(v))
        } by {}
        assert forall|v: PatternId, x: PatternId| #[trigger] q.vertices.contains_key(v) && #[trigger] q.vertices[v].connect_edges.contains_key(x)
            implies {
            let c = q.vertices[v].connect_edges[x];
            &&& q.edges.contains_key(x)
            &&& c.1 == PatternDirection::Out ==> q.edges[x].start_v_id == v && q.edges[x].end_v_id == c.0
            &&& c.1 == PatternDirection::In ==> q.edges[x].end_v_id == v && q.edges[x].start_v_id == c.0
        } by {
            if x != e.id {
                assert(p.vertices.contains_key(v));
                assert(p.vertices[v].connect_edges.contains_key(x));
                assert(q.vertices[v].connect_edges[x] == p.vertices[v].connect_edges[x]);
            }
        }
        assert forall|i: int| 0 <= i < edges.len() implies {
            &&& q.vertices.contains_key((#[trigger] edges[i]).start_v_id)
            &&& q.vertices[edges[i].start_v_id].label == edges[i].start_v_label
            &&& q.vertices.contains_key(edges[i].end_v_id)
            &&& q.vertices[edges[i].end_v_id].label == edges[i].end_v_label
        } by {
            if i < n {
                assert(edges[i] == rest[i]);
            }
        }
        assert forall|v: PatternId| #[trigger] q.vertices.contains_key(v) implies exists|i: int|
            0 <= i < edges.len() && ((#[trigger] edges[i]).start_v_id == v || edges[i].end_v_id == v) by {
            if p.vertices.contains_key(v) {
                let i = choose|i: int| 0 <= i < rest.len() && ((#[trigger] rest[i]).start_v_id == v || rest[i].end_v_id == v);
                assert(edges[i] == rest[i]);
            } else {
                assert(edges[n].start_v_id == v || edges[n].end_v_id == v);
            }
        }
    }
}

/// A pattern built from edges with distinct ids, none of which starts and ends at one vertex,
/// and that give each vertex id one label, records at every connection the labels of the
/// vertices it joins.
pub proof fn lemma_pattern_of_edges_labels_recorded(edges: Seq<PatternEdge>)
    requires
        simple_edges(edges),
        labels_consistent(edges),
    ensures
        labels_recorded(pattern_of_edges(edges)),
        connections_finite(pattern_of_edges(edges)),
{
    lemma_pattern_of_edges_ends(edges);
    lemma_pattern_of_edges_counts_match(edges);
    let p = pattern_of_edges(edges);
    assert forall|v: PatternId, x: PatternId| #[trigger] p.vertices.contains_key(v) && #[trigger] p.vertices[v].connect_edges.contains_key(x)
        implies {
        let c = p.vertices[v].connect_edges[x];
        let edge = p.edges[x];
        if c.1 == PatternDirection::Out {
            edge.start_v_label == p.vertices[v].label && edge.end_v_label == p.vertices[c.0].label
        } else {
            edge.end_v_label == p.vertices[v].label && edge.start_v_label == p.vertices[c.0].label
        }
    } by {
        assert(p.edges.contains_key(x));
        let i = choose|i: int| 0 <= i < edges.len() && (#[trigger] edges[i]).id == x;
        assert(p.edges[edges[i].id] == edges[i]);
    }
}

/// The initial ranking puts a vertex of a smaller label first; among vertices of one label,
/// the one with fewer out edges first, and among those with as many out edges, the one with
/// fewer in edges first.
pub proof fn lemma_initial_order_by_label_and_degrees(p: PatternView, a: PatternId, b: PatternId)
    requires
        a != b,
    ensures
        p.vertices[a].label < p.vertices[b].label ==> initial_order(p, a, b) == -1,
        p.vertices[a].label == p.vertices[b].label && p.vertices[a].out_degree < p.vertices[b].out_degree ==> initial_order(p, a, b) == -1,
        p.vertices[a].label == p.vertices[b].label && p.vertices[a].out_degree == p.vertices[b].out_degree && p.vertices[a].in_degree
            < p.vertices[b].in_degree ==> initial_order(p, a, b) == -1,
{
}

} // verus!
