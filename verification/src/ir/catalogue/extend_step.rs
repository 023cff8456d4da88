//! Extend steps: how a pattern grows by one vertex and the edges that connect it.
use std::collections::BTreeMap;
use vstd::prelude::*;

use crate::ir::catalogue::collections::{lemma_pair_keys_ordered, map_get_mut, map_pair_keys, sorted_pairs};
use crate::ir::catalogue::{PatternDirection, PatternLabelId, PatternRankId};

verus! {

/// An edge from a vertex of the pattern (given by its label and rank) to the vertex that
/// an extend step adds.
#[derive(Debug, Clone, Copy, PartialEq, Eq, Structural)]
pub struct ExtendEdge {
    pub start_v_label: PatternLabelId,
    pub start_v_rankid: PatternRankId,
    pub edge_label: PatternLabelId,
    pub dir: PatternDirection,
}

/// Initializer of ExtendEdge
impl ExtendEdge {
    pub fn new(
        start_v_label: PatternLabelId,
        start_v_rankid: PatternRankId,
        edge_label: PatternLabelId,
        dir: PatternDirection,
    ) -> (edge: ExtendEdge)
        ensures
            edge == (ExtendEdge { start_v_label, start_v_rankid, edge_label, dir }),
    {
        ExtendEdge { start_v_label, start_v_rankid, edge_label, dir }
    }
}

/// Methods for access fields of ExtendEdge
impl ExtendEdge {
    pub fn get_start_vertex_label(&self) -> (label: PatternLabelId)
        ensures
            label == self.start_v_label,
    {
        self.start_v_label
    }

    pub fn get_start_vertex_rankid(&self) -> (rank: PatternRankId)
        ensures
            rank == self.start_v_rankid,
    {
        self.start_v_rankid
    }

    pub fn get_edge_label(&self) -> (label: PatternLabelId)
        ensures
            label == self.edge_label,
    {
        self.edge_label
    }

    pub fn get_direction(&self) -> (dir: PatternDirection)
        ensures
            dir == self.dir,
    {
        self.dir
    }
}

/// The kind of start vertex an extend edge comes from: its label and rank.
pub open spec fn start_key(e: ExtendEdge) -> (PatternLabelId, PatternRankId) {
    (e.start_v_label, e.start_v_rankid)
}

/// The extend edges grouped by their kind of start vertex, each group in the given order.
pub open spec fn group_by_start(edges: Seq<ExtendEdge>) -> Map<(PatternLabelId, PatternRankId), Seq<ExtendEdge>> {
    Map::new(
        |k: (PatternLabelId, PatternRankId)| exists|i: int| 0 <= i < edges.len() && start_key(edges[i]) == k,
        |k: (PatternLabelId, PatternRankId)| edges.filter(|e: ExtendEdge| start_key(e) == k),
    )
}

/// What an extend step holds, as mathematical values.
pub struct ExtendStepView {
    pub target_v_label: PatternLabelId,
    /// The extend edges grouped by their start vertex label and rank
    pub extend_edges: Map<(PatternLabelId, PatternRankId), Seq<ExtendEdge>>,
}

#[derive(Debug, Clone)]
pub struct ExtendStep {
    target_v_label: PatternLabelId,
    /// Key: (start vertex label, start vertex rankid), Value: Vec<extend edge>
    /// Extend edges are classified by their start_v_labels and start_v_indices
    extend_edges: BTreeMap<(PatternLabelId, PatternRankId), Vec<ExtendEdge>>,
}

pub open spec fn groups_view(m: Map<(PatternLabelId, PatternRankId), Vec<ExtendEdge>>) -> Map<(PatternLabelId, PatternRankId), Seq<ExtendEdge>> {
    m.map_values(|v: Vec<ExtendEdge>| v@)
}

impl View for ExtendStep {
    type V = ExtendStepView;

    closed spec fn view(&self) -> ExtendStepView {
        ExtendStepView {
            target_v_label: self.target_v_label,
            extend_edges: groups_view(self.extend_edges@),
        }
    }
}

/// Adding one more edge to the grouping appends it to the group of its start vertex.
proof fn lemma_group_push(edges: Seq<ExtendEdge>, e: ExtendEdge)
    ensures
        group_by_start(edges.push(e)) == group_by_start(edges).insert(
            start_key(e),
            if group_by_start(edges).contains_key(start_key(e)) {
                group_by_start(edges)[start_key(e)].push(e)
            } else {
                seq![e]
            },
        ),
{
    let g0 = group_by_start(edges);
    let g1 = group_by_start(edges.push(e));
    let k = start_key(e);
    assert(edges.push(e).drop_last() == edges);
    reveal(Seq::filter);
    assert forall|key: (PatternLabelId, PatternRankId)| #[trigger] g1.contains_key(key) <==> g0.insert(k, seq![e]).contains_key(key) by {
        if key != k && g1.contains_key(key) {
            let i = choose|i: int| 0 <= i < edges.push(e).len() && start_key(edges.push(e)[i]) == key;
            assert(i < edges.len());
            assert(edges[i] == edges.push(e)[i]);
        }
        if g0.contains_key(key) {
            let i = choose|i: int| 0 <= i < edges.len() && start_key(edges[i]) == key;
            assert(edges.push(e)[i] == edges[i]);
        }
        if key == k {
            assert(edges.push(e)[edges.len() as int] == e);
        }
    }
    if !g0.contains_key(k) {
        assert(edges.filter(|x: ExtendEdge| start_key(x) == k) =~= Seq::empty()) by {
            if edges.filter(|x: ExtendEdge| start_key(x) == k).len() > 0 {
                let f = edges.filter(|x: ExtendEdge| start_key(x) == k);
                edges.lemma_filter_pred(|x: ExtendEdge| start_key(x) == k, 0);
                vstd::seq_lib::lemma_seq_contains_after_push(Seq::<ExtendEdge>::empty(), e, e);
                edges.lemma_filter_contains_rev(|x: ExtendEdge| start_key(x) == k, f[0]);
            }
        }
    }
    assert(g1 =~= g0.insert(k, if g0.contains_key(k) { g0[k].push(e) } else { seq![e] }));
}

/// Initializer of ExtendStep
impl From<(PatternLabelId, Vec<ExtendEdge>)> for ExtendStep {
    /// Initialization of a ExtendStep needs
    /// 1. a target vertex label
    /// 2. all extend edges connect to the target verex label
    fn from(step: (PatternLabelId, Vec<ExtendEdge>)) -> (extend_step: ExtendStep)
        ensures
            extend_step@.target_v_label == step.0,
            extend_step@.extend_edges == group_by_start(step.1@),
    {
        broadcast use vstd::std_specs::btree::group_btree_axioms;
        proof {
            lemma_pair_keys_ordered();
        }
        let (target_v_label, edges) = step;
        let mut extend_edges: BTreeMap<(PatternLabelId, PatternRankId), Vec<ExtendEdge>> = BTreeMap::new();
        assert(groups_view(extend_edges@) =~= group_by_start(edges@.take(0)));
        for i in 0..edges.len()
            invariant
                groups_view(extend_edges@) == group_by_start(edges@.take(i as int)),
        {
            let edge = edges[i];
            proof {
                assert(edges@.take(i + 1) == edges@.take(i as int).push(edge));
                lemma_group_push(edges@.take(i as int), edge);
            }
            let ghost before = groups_view(extend_edges@);
            match map_get_mut(&mut extend_edges, (edge.start_v_label, edge.start_v_rankid)) {
                Some(edge_vec) => {
                    edge_vec.push(edge);
                },
                None => {
                    let mut edge_vec = Vec::new();
                    edge_vec.push(edge);
                    extend_edges.insert((edge.start_v_label, edge.start_v_rankid), edge_vec);
                },
            }
            assert(groups_view(extend_edges@) =~= group_by_start(edges@.take(i + 1)));
        }
        assert(edges@.take(edges@.len() as int) == edges@);
        ExtendStep { target_v_label, extend_edges }
    }
}

impl vstd::std_specs::convert::FromSpecImpl<(PatternLabelId, Vec<ExtendEdge>)> for ExtendStep {
    open spec fn obeys_from_spec() -> bool {
        false
    }

    /// An extend step whose view has the target label and the edges grouped by start vertex;
    /// its inner layout is left open, so no call of `from` is promised to equal it.
    open spec fn from_spec(v: (PatternLabelId, Vec<ExtendEdge>)) -> ExtendStep {
        choose|s: ExtendStep| s@.target_v_label == v.0 && s@.extend_edges == group_by_start(v.1@)
    }
}

/// The number of extend edges in the groups whose keys are `keys[0..k]`.
pub open spec fn edges_in_groups(m: Map<(PatternLabelId, PatternRankId), Seq<ExtendEdge>>, keys: Seq<(PatternLabelId, PatternRankId)>, k: int) -> nat
    decreases k,
{
    if k <= 0 {
        0
    } else {
        edges_in_groups(m, keys, k - 1) + m[keys[k - 1]].len()
    }
}

/// The number of extend edges of an extend step.
pub open spec fn extend_edges_num(v: ExtendStepView) -> nat {
    let keys = sorted_pairs(v.extend_edges.dom());
    edges_in_groups(v.extend_edges, keys, keys.len() as int)
}

proof fn lemma_edges_in_groups_monotone(m: Map<(PatternLabelId, PatternRankId), Seq<ExtendEdge>>, keys: Seq<(PatternLabelId, PatternRankId)>, k1: int, k2: int)
    requires
        k1 <= k2,
    ensures
        edges_in_groups(m, keys, k1) <= edges_in_groups(m, keys, k2),
    decreases k2 - k1,
{
    if k1 < k2 {
        lemma_edges_in_groups_monotone(m, keys, k1, k2 - 1);
    }
}

/// Methods for access fileds or get info from ExtendStep
impl ExtendStep {
    /// The groups of extend edges, by increasing (start vertex label, start vertex rank).
    pub fn iter(&self) -> (groups: Vec<((PatternLabelId, PatternRankId), Vec<ExtendEdge>)>)
        ensures
            groups@.len() == sorted_pairs(self@.extend_edges.dom()).len(),
            forall|k: (PatternLabelId, PatternRankId)| self@.extend_edges.contains_key(k) <==> #[trigger] sorted_pairs(self@.extend_edges.dom()).contains(k),
            forall|i: int| 0 <= i < groups@.len() ==> {
                &&& #[trigger] groups@[i].0 == sorted_pairs(self@.extend_edges.dom())[i]
                &&& groups@[i].1@ == self@.extend_edges[groups@[i].0]
            },
    {
        broadcast use vstd::std_specs::btree::group_btree_axioms;
        proof {
            lemma_pair_keys_ordered();
        }
        let keys = map_pair_keys(&self.extend_edges);
        assert(self@.extend_edges.dom() =~= self.extend_edges@.dom());
        let mut groups: Vec<((PatternLabelId, PatternRankId), Vec<ExtendEdge>)> = Vec::new();
        for i in 0..keys.len()
            invariant
                keys@ == sorted_pairs(self@.extend_edges.dom()),
                forall|k: (PatternLabelId, PatternRankId)| self.extend_edges@.contains_key(k) <==> keys@.contains(k),
                groups@.len() == i,
                forall|j: int| 0 <= j < i ==> {
                    &&& #[trigger] groups@[j].0 == keys@[j]
                    &&& groups@[j].1@ == self@.extend_edges[groups@[j].0]
                },
        {
            let key = keys[i];
            assert(keys@.contains(key));
            match self.extend_edges.get(&key) {
                Some(edges) => {
                    groups.push((key, copy_extend_edges(edges)));
                },
                None => {
                    assert(false);
                },
            }
        }
        assert forall|k: (PatternLabelId, PatternRankId)| self@.extend_edges.contains_key(k) <==> #[trigger] keys@.contains(k) by {
            assert(self.extend_edges@.contains_key(k) == self@.extend_edges.contains_key(k));
        }
        groups
    }

    pub fn get_target_v_label(&self) -> (label: PatternLabelId)
        ensures
            label == self@.target_v_label,
    {
        self.target_v_label
    }

    /// Given a source vertex label and rankid,
    /// check whether this ExtendStep contains a extend edge from this kind of vertex
    pub fn has_extend_from_start_v(&self, v_label: PatternLabelId, v_rankid: PatternRankId) -> (found: bool)
        ensures
            found == self@.extend_edges.contains_key((v_label, v_rankid)),
    {
        broadcast use vstd::std_specs::btree::group_btree_axioms;
        proof {
            lemma_pair_keys_ordered();
        }
        self.extend_edges.contains_key(&(v_label, v_rankid))
    }

    /// Get how many different kind of start vertex this ExtendStep has
    pub fn get_diff_start_v_num(&self) -> (num: usize)
        ensures
            num == self@.extend_edges.dom().len(),
    {
        broadcast use vstd::std_specs::btree::group_btree_axioms;
        assert(self@.extend_edges.dom() =~= self.extend_edges@.dom());
        self.extend_edges.len()
    }

    /// The total number of extend edges
    pub fn get_extend_edges_num(&self) -> (num: usize)
        requires
            extend_edges_num(self@) <= usize::MAX,
        ensures
            num == extend_edges_num(self@),
    {
        broadcast use vstd::std_specs::btree::group_btree_axioms;
        proof {
            lemma_pair_keys_ordered();
        }
        let keys = map_pair_keys(&self.extend_edges);
        assert(self@.extend_edges.dom() =~= self.extend_edges@.dom());
        let ghost m = self@.extend_edges;
        let mut edges_num: usize = 0;
        for i in 0..keys.len()
            invariant
                keys@ == sorted_pairs(m.dom()),
                m == self@.extend_edges,
                forall|k: (PatternLabelId, PatternRankId)| self.extend_edges@.contains_key(k) <==> keys@.contains(k),
                edges_num == edges_in_groups(m, keys@, i as int),
                extend_edges_num(self@) <= usize::MAX,
        {
            let key = keys[i];
            assert(keys@.contains(key));
            proof {
                lemma_edges_in_groups_monotone(m, keys@, i + 1, keys@.len() as int);
            }
            match self.extend_edges.get(&key) {
                Some(edges) => {
                    edges_num = edges_num + edges.len();
                },
                None => {
                    assert(false);
                },
            }
        }
        edges_num
    }

    /// Given a source vertex label and rankid, find all extend edges connect to this kind of vertices
    pub fn get_extend_edges_by_start_v(&self, v_label: PatternLabelId, v_rankid: PatternRankId) -> (edges: Option<&Vec<ExtendEdge>>)
        ensures
            match edges {
                Some(e) => self@.extend_edges.contains_key((v_label, v_rankid)) && e@ == self@.extend_edges[(v_label, v_rankid)],
                None => !self@.extend_edges.contains_key((v_label, v_rankid)),
            },
    {
        broadcast use vstd::std_specs::btree::group_btree_axioms;
        proof {
            lemma_pair_keys_ordered();
        }
        self.extend_edges.get(&(v_label, v_rankid))
    }
}

/// A copy of a list of extend edges.
fn copy_extend_edges(v: &Vec<ExtendEdge>) -> (r: Vec<ExtendEdge>)
    ensures
        r@ == v@,
{
    let mut r: Vec<ExtendEdge> = Vec::new();
    for i in 0..v.len()
        invariant
            r@ == v@.take(i as int),
    {
        r.push(v[i]);
        proof {
            assert(v@.take(i + 1) == v@.take(i as int).push(v@[i as int]));
        }
    }
    proof {
        assert(v@.take(v@.len() as int) == v@);
    }
    r
}

} // verus!

verus! {

/// No index of `s` is in the group of index `i`.
pub open spec fn group_free(s: Seq<int>, groups: Seq<int>, i: int) -> bool {
    forall|m: int| 0 <= m < s.len() ==> groups[s[m]] != groups[i]
}

/// The index lists that extend `s` by one index from `i` on, in increasing order of that
/// index, where no index of `s` is in the new index's group.
pub open spec fn extensions_from(s: Seq<int>, groups: Seq<int>, i: int) -> Seq<Seq<int>>
    decreases groups.len() - i,
{
    if i < 0 || i >= groups.len() {
        Seq::empty()
    } else if group_free(s, groups, i) {
        seq![s.push(i)] + extensions_from(s, groups, i + 1)
    } else {
        extensions_from(s, groups, i + 1)
    }
}

/// The first index that may follow the indices of `s`.
pub open spec fn next_start(s: Seq<int>) -> int {
    if s.len() == 0 {
        0
    } else {
        s.last() + 1
    }
}

/// The lists one breadth-first step below those of `level`, in order.
pub open spec fn next_level(level: Seq<Seq<int>>, groups: Seq<int>) -> Seq<Seq<int>>
    decreases level.len(),
{
    if level.len() == 0 {
        Seq::empty()
    } else {
        next_level(level.drop_last(), groups) + extensions_from(level.last(), groups, next_start(level.last()))
    }
}

/// The index lists of length `k` that the breadth-first search reaches, in order.
pub open spec fn bfs_level(k: nat, groups: Seq<int>) -> Seq<Seq<int>>
    decreases k,
{
    if k == 0 {
        seq![Seq::empty()]
    } else {
        next_level(bfs_level((k - 1) as nat, groups), groups)
    }
}

/// The index lists of lengths 1 to `k` that the breadth-first search reaches, level by level.
pub open spec fn bfs_combinations(k: nat, groups: Seq<int>) -> Seq<Seq<int>>
    decreases k,
{
    if k == 0 {
        Seq::empty()
    } else {
        bfs_combinations((k - 1) as nat, groups) + bfs_level(k, groups)
    }
}

/// An index list: strictly increasing, each index below `n`, no two indices of one group.
pub open spec fn is_combination(s: Seq<int>, groups: Seq<int>) -> bool {
    &&& forall|a: int, b: int| 0 <= a < b < s.len() ==> s[a] < s[b]
    &&& forall|a: int| 0 <= a < s.len() ==> 0 <= #[trigger] s[a] < groups.len()
    &&& forall|a: int, b: int| 0 <= a < b < s.len() ==> groups[s[a]] != groups[s[b]]
}

/// The extensions of a combination are combinations one longer.
proof fn lemma_extensions(s: Seq<int>, groups: Seq<int>, i: int)
    requires
        is_combination(s, groups),
        next_start(s) <= i,
    ensures
        forall|j: int| 0 <= j < extensions_from(s, groups, i).len() ==> {
            &&& is_combination(#[trigger] extensions_from(s, groups, i)[j], groups)
            &&& extensions_from(s, groups, i)[j].len() == s.len() + 1
        },
    decreases groups.len() - i,
{
    if 0 <= i < groups.len() {
        lemma_extensions(s, groups, i + 1);
        let rest = extensions_from(s, groups, i + 1);
        if group_free(s, groups, i) {
            let t = s.push(i);
            assert forall|a: int, b: int| 0 <= a < b < t.len() implies t[a] < t[b] by {
                if b == s.len() && s.len() > 0 {
                    assert(s[a] <= s.last());
                }
            }
            assert(is_combination(t, groups));
            let all = seq![t] + rest;
            assert forall|j: int| 0 <= j < all.len() implies {
                &&& is_combination(#[trigger] all[j], groups)
                &&& all[j].len() == s.len() + 1
            } by {
                if j > 0 {
                    assert(all[j] == rest[j - 1]);
                }
            }
        }
    }
}

/// A next level of combinations of length `k` holds combinations of length `k + 1`.
proof fn lemma_next_level(level: Seq<Seq<int>>, groups: Seq<int>, k: nat)
    requires
        forall|j: int| 0 <= j < level.len() ==> is_combination(#[trigger] level[j], groups) && level[j].len() == k,
    ensures
        forall|j: int| 0 <= j < next_level(level, groups).len() ==> is_combination(#[trigger] next_level(level, groups)[j], groups) && next_level(level, groups)[j].len() == k + 1,
    decreases level.len(),
{
    if level.len() > 0 {
        let front = level.drop_last();
        assert forall|j: int| 0 <= j < front.len() implies is_combination(#[trigger] front[j], groups) && front[j].len() == k by {
            assert(front[j] == level[j]);
        }
        lemma_next_level(front, groups, k);
        assert(is_combination(level[level.len() - 1], groups));
        lemma_extensions(level.last(), groups, next_start(level.last()));
        let a = next_level(front, groups);
        let b = extensions_from(level.last(), groups, next_start(level.last()));
        assert forall|j: int| 0 <= j < (a + b).len() implies is_combination(#[trigger] (a + b)[j], groups) && (a + b)[j].len() == k + 1 by {
            if j >= a.len() {
                assert((a + b)[j] == b[j - a.len()]);
            }
        }
    }
}

/// Every list of level `k` is a combination of length `k`.
pub proof fn lemma_bfs_level(k: nat, groups: Seq<int>)
    ensures
        forall|j: int| 0 <= j < bfs_level(k, groups).len() ==> is_combination(#[trigger] bfs_level(k, groups)[j], groups) && bfs_level(k, groups)[j].len() == k,
    decreases k,
{
    if k == 0 {
        assert(is_combination(bfs_level(0, groups)[0], groups));
    } else {
        lemma_bfs_level((k - 1) as nat, groups);
        lemma_next_level(bfs_level((k - 1) as nat, groups), groups, (k - 1) as nat);
    }
}

} // verus!

verus! {

/// An index list as mathematical integers.
pub open spec fn as_ints(s: Seq<usize>) -> Seq<int> {
    s.map_values(|x: usize| x as int)
}

/// The groups as mathematical integers.
pub open spec fn groups_of(g: Seq<u64>) -> Seq<int> {
    g.map_values(|x: u64| x as int)
}

/// Whether no index of `s` is in the group of index `i`.
fn is_group_free(s: &Vec<usize>, groups: &Vec<u64>, i: usize) -> (free: bool)
    requires
        i < groups@.len(),
        forall|m: int| 0 <= m < s@.len() ==> #[trigger] s@[m] < groups@.len(),
    ensures
        free == group_free(as_ints(s@), groups_of(groups@), i as int),
{
    let mut m: usize = 0;
    while m < s.len()
        invariant
            m <= s@.len(),
            i < groups@.len(),
            forall|k: int| 0 <= k < s@.len() ==> #[trigger] s@[k] < groups@.len(),
            forall|k: int| 0 <= k < m ==> groups@[#[trigger] s@[k] as int] != groups@[i as int],
        decreases s@.len() - m,
    {
        if groups[s[m]] == groups[i] {
            proof {
                assert(as_ints(s@)[m as int] == s@[m as int] as int);
                assert(groups_of(groups@)[as_ints(s@)[m as int]] == groups_of(groups@)[i as int]);
            }
            return false;
        }
        m = m + 1;
    }
    true
}

/// A copy of an index list.
fn copy_indices(v: &Vec<usize>) -> (r: Vec<usize>)
    ensures
        r@ == v@,
{
    let mut r: Vec<usize> = Vec::new();
    for i in 0..v.len()
        invariant
            r@ == v@.take(i as int),
    {
        r.push(v[i]);
        proof {
            assert(v@.take(i + 1) == v@.take(i as int).push(v@[i as int]));
        }
    }
    proof {
        assert(v@.take(v@.len() as int) == v@);
    }
    r
}

/// All the combinations of indices below `groups.len()` with no two indices of one group,
/// breadth first: the single indices, then each list extended by each larger index.
pub fn index_combinations(groups: &Vec<u64>) -> (combos: Vec<Vec<usize>>)
    ensures
        combos@.len() == bfs_combinations(groups@.len(), groups_of(groups@)).len(),
        forall|k: int| 0 <= k < combos@.len() ==> as_ints(#[trigger] combos@[k]@) == bfs_combinations(groups@.len(), groups_of(groups@))[k],
{
    let ghost g = groups_of(groups@);
    let n = groups.len();
    let mut set_collections: Vec<Vec<usize>> = Vec::new();
    let mut level: Vec<Vec<usize>> = Vec::new();
    level.push(Vec::new());
    let mut k: u128 = 0;
    proof {
        assert(as_ints(level@[0]@) =~= Seq::<int>::empty());
    }
    while level.len() > 0
        invariant
            n == groups@.len(),
            g == groups_of(groups@),
            k <= n + 1,
            level@.len() == bfs_level(k as nat, g).len(),
            forall|j: int| 0 <= j < level@.len() ==> as_ints(#[trigger] level@[j]@) == bfs_level(k as nat, g)[j],
            set_collections@.len() == bfs_combinations(k as nat, g).len(),
            forall|j: int| 0 <= j < set_collections@.len() ==> as_ints(#[trigger] set_collections@[j]@) == bfs_combinations(k as nat, g)[j],
        decreases n + 1 - k,
    {
        proof {
            lemma_bfs_level(k as nat, g);
            let s = bfs_level(k as nat, g)[0];
            assert(is_combination(s, g) && s.len() == k);
            if k > n {
                assert forall|a: int| 0 <= a < s.len() implies s[a] >= a by {
                    lemma_increasing_lower_bound(s, a);
                }
                assert(s[k - 1] >= k - 1);
            }
        }
        assert(k <= n);
        let mut next: Vec<Vec<usize>> = Vec::new();
        let ghost lv = bfs_level(k as nat, g);
        for j in 0..level.len()
            invariant
                n == groups@.len(),
                g == groups_of(groups@),
                lv == bfs_level(k as nat, g),
                level@.len() == lv.len(),
                forall|j: int| 0 <= j < level@.len() ==> as_ints(#[trigger] level@[j]@) == lv[j],
                forall|j: int| 0 <= j < lv.len() ==> is_combination(#[trigger] lv[j], g),
                next@.len() == next_level(lv.take(j as int), g).len(),
                forall|m: int| 0 <= m < next@.len() ==> as_ints(#[trigger] next@[m]@) == next_level(lv.take(j as int), g)[m],
        {
            let s = &level[j];
            assert(as_ints(s@) == lv[j as int]);
            assert(is_combination(lv[j as int], g));
            assert forall|m: int| 0 <= m < s@.len() implies #[trigger] s@[m] < groups@.len() by {
                assert(as_ints(s@)[m] == s@[m] as int);
            }
            let start: usize = if s.len() == 0 {
                0
            } else {
                s[s.len() - 1] + 1
            };
            assert(start == next_start(lv[j as int]));
            let ghost base = next@;
            let ghost before_len = next@.len();
            proof {
                assert(lv.take(j + 1).drop_last() == lv.take(j as int));
                assert(lv.take(j + 1).last() == lv[j as int]);
            }
            let mut i: usize = start;
            while i < n
                invariant
                    start <= i,
                    n == groups@.len(),
                    g == groups_of(groups@),
                    as_ints(s@) == lv[j as int],
                    forall|m: int| 0 <= m < s@.len() ==> #[trigger] s@[m] < groups@.len(),
                    next@.len() == base.len() + (extensions_from(lv[j as int], g, start as int).len() - extensions_from(lv[j as int], g, i as int).len()),
                    forall|m: int| 0 <= m < base.len() ==> #[trigger] next@[m] == base[m],
                    forall|m: int| 0 <= m < base.len() ==> as_ints(#[trigger] base[m]@) == next_level(lv.take(j as int), g)[m],
                    base.len() == next_level(lv.take(j as int), g).len(),
                    extensions_from(lv[j as int], g, start as int) == extensions_from(lv[j as int], g, start as int).take(next@.len() - base.len()) + extensions_from(lv[j as int], g, i as int),
                    forall|m: int| base.len() <= m < next@.len() ==> as_ints(#[trigger] next@[m]@) == extensions_from(lv[j as int], g, start as int)[m - base.len()],
                decreases n - i,
            {
                let ghost ext_i = extensions_from(lv[j as int], g, i as int);
                let ghost ext_start = extensions_from(lv[j as int], g, start as int);
                if is_group_free(s, groups, i) {
                    let mut t = copy_indices(s);
                    t.push(i);
                    proof {
                        assert(as_ints(t@) =~= lv[j as int].push(i as int));
                        assert(ext_i == seq![lv[j as int].push(i as int)] + extensions_from(lv[j as int], g, i + 1));
                        let taken = next@.len() - base.len();
                        assert(ext_start == ext_start.take(taken + 1) + extensions_from(lv[j as int], g, i + 1)) by {
                            assert(ext_start.take(taken + 1) =~= ext_start.take(taken).push(ext_start[taken]));
                            assert(ext_start[taken] == ext_i[0]);
                        }
                    }
                    next.push(t);
                } else {
                    proof {
                        assert(ext_i == extensions_from(lv[j as int], g, i + 1));
                    }
                }
                i = i + 1;
            }
            proof {
                assert(extensions_from(lv[j as int], g, i as int) =~= Seq::<Seq<int>>::empty());
                let ext_start = extensions_from(lv[j as int], g, start as int);
                assert(ext_start.take(next@.len() - base.len()) =~= ext_start);
                let nl = next_level(lv.take(j + 1), g);
                assert(nl == next_level(lv.take(j as int), g) + ext_start);
                assert forall|m: int| 0 <= m < next@.len() implies as_ints(#[trigger] next@[m]@) == nl[m] by {
                    if m < base.len() {
                        assert(next@[m] == base[m]);
                    }
                }
            }
        }
        proof {
            assert(lv.take(lv.len() as int) == lv);
        }
        // Record the new level and go on from it
        let ghost before = set_collections@;
        for m in 0..next.len()
            invariant
                set_collections@.len() == before.len() + m,
                forall|j: int| 0 <= j < before.len() ==> #[trigger] set_collections@[j] == before[j],
                forall|j: int| 0 <= j < m ==> set_collections@[before.len() + j]@ == #[trigger] next@[j]@,
        {
            let t = copy_indices(&next[m]);
            set_collections.push(t);
        }
        proof {
            let nc = bfs_combinations((k + 1) as nat, g);
            assert(nc == bfs_combinations(k as nat, g) + bfs_level((k + 1) as nat, g));
            assert forall|j: int| 0 <= j < set_collections@.len() implies as_ints(#[trigger] set_collections@[j]@) == nc[j] by {
                if j < before.len() {
                    assert(set_collections@[j] == before[j]);
                } else {
                    let i = j - before.len();
                    assert(set_collections@[before.len() + i]@ == next@[i]@);
                }
            }
        }
        level = next;
        k = k + 1;
    }
    proof {
        if k <= n {
            lemma_levels_stay_empty(k as nat, n as nat, g);
        } else {
            assert(bfs_combinations(k as nat, g) =~= bfs_combinations(n as nat, g));
        }
    }
    set_collections
}

/// In a strictly increasing list of naturals, the entry at position `a` is at least `a`.
proof fn lemma_increasing_lower_bound(s: Seq<int>, a: int)
    requires
        forall|x: int, y: int| 0 <= x < y < s.len() ==> s[x] < s[y],
        forall|x: int| 0 <= x < s.len() ==> 0 <= #[trigger] s[x],
        0 <= a < s.len(),
    ensures
        s[a] >= a,
    decreases a,
{
    if a > 0 {
        lemma_increasing_lower_bound(s, a - 1);
    }
}

/// Once a level is empty, every later level is empty, and the combinations stop growing.
proof fn lemma_levels_stay_empty(k: nat, m: nat, g: Seq<int>)
    requires
        bfs_level(k, g).len() == 0,
        k <= m,
    ensures
        bfs_level(m, g).len() == 0,
        bfs_combinations(m, g) == bfs_combinations(k, g),
    decreases m - k,
{
    if m > k {
        lemma_levels_stay_empty(k, (m - 1) as nat, g);
        assert(bfs_level(m, g) == next_level(bfs_level((m - 1) as nat, g), g));
        assert(bfs_level(m, g) =~= Seq::<Seq<int>>::empty());
        assert(bfs_combinations(m, g) =~= bfs_combinations((m - 1) as nat, g));
    }
}

} // verus!

verus! {

/// The index lists of the subsets of `n` items, breadth first: the empty one, then the single
/// items, then each list extended by each later item.
pub open spec fn subset_indices(n: nat) -> Seq<Seq<int>> {
    seq![Seq::<int>::empty()] + bfs_combinations(n, Seq::new(n, |i: int| i))
}

/// Every list of the first `k` levels is a combination, of length 1 to `k`.
pub proof fn lemma_bfs_combinations(k: nat, groups: Seq<int>)
    ensures
        forall|j: int| 0 <= j < bfs_combinations(k, groups).len() ==> {
            &&& is_combination(#[trigger] bfs_combinations(k, groups)[j], groups)
            &&& 1 <= bfs_combinations(k, groups)[j].len() <= k
        },
    decreases k,
{
    if k > 0 {
        lemma_bfs_combinations((k - 1) as nat, groups);
        lemma_bfs_level(k, groups);
        let a = bfs_combinations((k - 1) as nat, groups);
        let b = bfs_level(k, groups);
        assert forall|j: int| 0 <= j < (a + b).len() implies {
            &&& is_combination(#[trigger] (a + b)[j], groups)
            &&& 1 <= (a + b)[j].len() <= k
        } by {
            if j >= a.len() {
                assert((a + b)[j] == b[j - a.len()]);
            }
        }
    }
}

/// Get all the subsets of given Vec<T>
/// The algorithm is BFS: the empty subset, the single items, then each subset extended by each
/// later item
pub fn get_subsets<T: Clone>(origin_vec: Vec<T>) -> (set_collections: Vec<Vec<T>>)
    ensures
        set_collections@.len() == subset_indices(origin_vec@.len()).len(),
        forall|k: int| 0 <= k < set_collections@.len() ==> {
            &&& (#[trigger] set_collections@[k])@.len() == subset_indices(origin_vec@.len())[k].len()
            &&& forall|m: int| 0 <= m < set_collections@[k]@.len() ==> vstd::pervasive::cloned(
                origin_vec@[subset_indices(origin_vec@.len())[k][m]],
                #[trigger] set_collections@[k]@[m],
            )
        },
        forall|k: int| 0 <= k < set_collections@.len() ==> forall|a: int, b: int|
            0 <= a < b < (#[trigger] set_collections@[k])@.len() ==> subset_indices(origin_vec@.len())[k][a] < subset_indices(origin_vec@.len())[k][b],
{
    let n = origin_vec.len();
    let mut groups: Vec<u64> = Vec::new();
    for i in 0..n
        invariant
            groups@.len() == i,
            forall|j: int| 0 <= j < i ==> groups@[j] == j,
    {
        groups.push(i as u64);
    }
    assert(groups_of(groups@) =~= Seq::new(n as nat, |i: int| i));
    let combos = index_combinations(&groups);
    let ghost idx = bfs_combinations(n as nat, Seq::new(n as nat, |i: int| i));
    let ghost all = subset_indices(n as nat);
    proof {
        lemma_bfs_combinations(n as nat, Seq::new(n as nat, |i: int| i));
        assert forall|k: int| 0 <= k < idx.len() implies #[trigger] all[k + 1] == idx[k] by {}
    }
    let mut set_collections: Vec<Vec<T>> = Vec::new();
    set_collections.push(Vec::new());
    for k in 0..combos.len()
        invariant
            n == origin_vec@.len(),
            idx == bfs_combinations(n as nat, Seq::new(n as nat, |i: int| i)),
            all == subset_indices(n as nat),
            all.len() == idx.len() + 1,
            all[0].len() == 0,
            forall|k: int| 0 <= k < idx.len() ==> #[trigger] all[k + 1] == idx[k],
            combos@.len() == idx.len(),
            forall|k: int| 0 <= k < combos@.len() ==> as_ints(#[trigger] combos@[k]@) == idx[k],
            forall|k: int| 0 <= k < idx.len() ==> is_combination(#[trigger] idx[k], Seq::new(n as nat, |i: int| i)) && 1 <= idx[k].len(),
            set_collections@.len() == k + 1,
            set_collections@[0]@.len() == 0,
            forall|j: int| 0 <= j < k + 1 ==> {
                &&& (#[trigger] set_collections@[j])@.len() == all[j].len()
                &&& forall|m: int| 0 <= m < set_collections@[j]@.len() ==> vstd::pervasive::cloned(origin_vec@[all[j][m]], #[trigger] set_collections@[j]@[m])
            },
    {
        let combo = &combos[k];
        assert(as_ints(combo@) == idx[k as int]);
        let mut subset: Vec<T> = Vec::new();
        for m in 0..combo.len()
            invariant
                n == origin_vec@.len(),
                as_ints(combo@) == idx[k as int],
                is_combination(idx[k as int], Seq::new(n as nat, |i: int| i)),
                subset@.len() == m,
                forall|j: int| 0 <= j < m ==> vstd::pervasive::cloned(origin_vec@[idx[k as int][j]], #[trigger] subset@[j]),
        {
            assert(as_ints(combo@)[m as int] == combo@[m as int] as int);
            assert(0 <= idx[k as int][m as int] < n);
            let item = origin_vec[combo[m]].clone();
            subset.push(item);
        }
        let ghost before = set_collections@;
        set_collections.push(subset);
        proof {
            assert(all[k + 1] == idx[k as int]);
            assert forall|j: int| 0 <= j < k + 2 implies {
                &&& (#[trigger] set_collections@[j])@.len() == all[j].len()
                &&& forall|m: int| 0 <= m < set_collections@[j]@.len() ==> vstd::pervasive::cloned(origin_vec@[all[j][m]], #[trigger] set_collections@[j]@[m])
            } by {
                if j < k + 1 {
                    assert(set_collections@[j] == before[j]);
                }
            }
        }
    }
    proof {
        assert forall|k: int| 0 <= k < set_collections@.len() implies forall|a: int, b: int| 0 <= a < b < (#[trigger] set_collections@[k])@.len() ==> all[k][a] < all[k][b] by {
            if k > 0 {
                assert(all[k] == idx[k - 1]);
                assert(is_combination(idx[k - 1], Seq::new(n as nat, |i: int| i)));
            }
        }
    }
    set_collections
}

} // verus!

verus! {

/// Extending `s` from index `i` on reaches every free index `j` from `i` on.
proof fn lemma_extensions_contain(s: Seq<int>, groups: Seq<int>, i: int, j: int)
    requires
        0 <= i <= j < groups.len(),
        group_free(s, groups, j),
    ensures
        extensions_from(s, groups, i).contains(s.push(j)),
    decreases j - i,
{
    let ext = extensions_from(s, groups, i);
    if i == j {
        assert(ext[0] == s.push(j));
    } else {
        lemma_extensions_contain(s, groups, i + 1, j);
        let rest = extensions_from(s, groups, i + 1);
        let k = choose|k: int| 0 <= k < rest.len() && rest[k] == s.push(j);
        if group_free(s, groups, i) {
            assert(ext[k + 1] == rest[k]);
        } else {
            assert(ext[k] == rest[k]);
        }
    }
}

/// Each extension of `s` from index `i` on is `s` with one index from `i` on added, and
/// the added indices increase along the list.
proof fn lemma_extensions_shape(s: Seq<int>, groups: Seq<int>, i: int)
    ensures
        forall|a: int| 0 <= a < extensions_from(s, groups, i).len() ==> {
            &&& (#[trigger] extensions_from(s, groups, i)[a]).len() == s.len() + 1
            &&& extensions_from(s, groups, i)[a].drop_last() == s
            &&& extensions_from(s, groups, i)[a].last() >= i
        },
        forall|a: int, b: int| 0 <= a < b < extensions_from(s, groups, i).len() ==> (#[trigger] extensions_from(s, groups, i)[a]).last()
            < (#[trigger] extensions_from(s, groups, i)[b]).last(),
        extensions_from(s, groups, i).no_duplicates(),
    decreases groups.len() - i,
{
    let ext = extensions_from(s, groups, i);
    if 0 <= i < groups.len() {
        lemma_extensions_shape(s, groups, i + 1);
        let rest = extensions_from(s, groups, i + 1);
        if group_free(s, groups, i) {
            assert(ext[0] == s.push(i));
            assert(s.push(i).drop_last() =~= s);
            assert forall|a: int| 0 <= a < ext.len() implies {
                &&& (#[trigger] ext[a]).len() == s.len() + 1
                &&& ext[a].drop_last() == s
                &&& ext[a].last() >= i
            } by {
                if a > 0 {
                    assert(ext[a] == rest[a - 1]);
                }
            }
            assert forall|a: int, b: int| 0 <= a < b < ext.len() implies (#[trigger] ext[a]).last() < (#[trigger] ext[b]).last() by {
                assert(ext[b] == rest[b - 1]);
                if a > 0 {
                    assert(ext[a] == rest[a - 1]);
                }
            }
        } else {
            assert(ext == rest);
        }
    }
    assert forall|a: int, b: int| 0 <= a < ext.len() && 0 <= b < ext.len() && a != b implies ext[a] != ext[b] by {
        if a < b {
            assert(ext[a].last() < ext[b].last());
        } else {
            assert(ext[b].last() < ext[a].last());
        }
    }
}

/// What a breadth-first step reaches from a list of `level` is in the next level.
proof fn lemma_next_level_contains(level: Seq<Seq<int>>, groups: Seq<int>, a: int, y: Seq<int>)
    requires
        0 <= a < level.len(),
        extensions_from(level[a], groups, next_start(level[a])).contains(y),
    ensures
        next_level(level, groups).contains(y),
    decreases level.len(),
{
    let front = level.drop_last();
    let left = next_level(front, groups);
    let right = extensions_from(level.last(), groups, next_start(level.last()));
    assert(next_level(level, groups) == left + right);
    if a == level.len() - 1 {
        let k = choose|k: int| 0 <= k < right.len() && right[k] == y;
        assert((left + right)[left.len() + k] == y);
    } else {
        assert(front[a] == level[a]);
        lemma_next_level_contains(front, groups, a, y);
        let k = choose|k: int| 0 <= k < left.len() && left[k] == y;
        assert((left + right)[k] == y);
    }
}

/// Every list of the next level is a list of `level` with one index added; where `level` has
/// no list twice, neither has the next level.
proof fn lemma_next_level_shape(level: Seq<Seq<int>>, groups: Seq<int>)
    ensures
        forall|b: int| 0 <= b < next_level(level, groups).len() ==> level.contains((#[trigger] next_level(level, groups)[b]).drop_last()),
        level.no_duplicates() ==> next_level(level, groups).no_duplicates(),
    decreases level.len(),
{
    if level.len() > 0 {
        let front = level.drop_last();
        lemma_next_level_shape(front, groups);
        let left = next_level(front, groups);
        let right = extensions_from(level.last(), groups, next_start(level.last()));
        lemma_extensions_shape(level.last(), groups, next_start(level.last()));
        let all = next_level(level, groups);
        assert(all == left + right);
        assert forall|b: int| 0 <= b < all.len() implies level.contains((#[trigger] all[b]).drop_last()) by {
            if b < left.len() {
                assert(all[b] == left[b]);
                let c = choose|c: int| 0 <= c < front.len() && front[c] == left[b].drop_last();
                assert(level[c] == front[c]);
            } else {
                assert(all[b] == right[b - left.len()]);
                assert(level[level.len() - 1] == level.last());
            }
        }
        if level.no_duplicates() {
            assert(front.no_duplicates()) by {
                assert forall|i: int, j: int| 0 <= i < front.len() && 0 <= j < front.len() && i != j implies front[i] != front[j] by {
                    assert(front[i] == level[i] && front[j] == level[j]);
                }
            }
            assert forall|i: int, j: int| 0 <= i < left.len() && 0 <= j < right.len() implies left[i] != right[j] by {
                let c = choose|c: int| 0 <= c < front.len() && front[c] == left[i].drop_last();
                assert(level[c] == front[c]);
                assert(right[j].drop_last() == level.last());
                assert(level[level.len() - 1] == level.last());
            }
            vstd::seq_lib::lemma_no_dup_in_concat(left, right);
        }
    }
}

/// No level of the breadth-first search holds a list twice.
proof fn lemma_bfs_level_distinct(k: nat, groups: Seq<int>)
    ensures
        bfs_level(k, groups).no_duplicates(),
    decreases k,
{
    if k > 0 {
        lemma_bfs_level_distinct((k - 1) as nat, groups);
        lemma_next_level_shape(bfs_level((k - 1) as nat, groups), groups);
    }
}

/// The breadth-first search holds no list twice.
proof fn lemma_bfs_combinations_distinct(k: nat, groups: Seq<int>)
    ensures
        bfs_combinations(k, groups).no_duplicates(),
    decreases k,
{
    if k > 0 {
        lemma_bfs_combinations_distinct((k - 1) as nat, groups);
        lemma_bfs_level_distinct(k, groups);
        lemma_bfs_combinations((k - 1) as nat, groups);
        lemma_bfs_level(k, groups);
        let a = bfs_combinations((k - 1) as nat, groups);
        let b = bfs_level(k, groups);
        assert forall|i: int, j: int| 0 <= i < a.len() && 0 <= j < b.len() implies a[i] != b[j] by {
            assert(a[i].len() <= k - 1);
            assert(b[j].len() == k);
        }
        vstd::seq_lib::lemma_no_dup_in_concat(a, b);
    }
}

/// The lists of level `m`, for `1 <= m <= k`, are among the first `k` levels.
proof fn lemma_combinations_contain(k: nat, groups: Seq<int>, m: nat, x: Seq<int>)
    requires
        1 <= m <= k,
        bfs_level(m, groups).contains(x),
    ensures
        bfs_combinations(k, groups).contains(x),
    decreases k,
{
    let a = bfs_combinations((k - 1) as nat, groups);
    let b = bfs_level(k, groups);
    if m == k {
        let j = choose|j: int| 0 <= j < b.len() && b[j] == x;
        assert((a + b)[a.len() + j] == x);
    } else {
        lemma_combinations_contain((k - 1) as nat, groups, m, x);
        let j = choose|j: int| 0 <= j < a.len() && a[j] == x;
        assert((a + b)[j] == x);
    }
}

/// An increasing list of indices below `n` is a subset of the indices.
pub open spec fn index_subset(s: Seq<int>, n: nat) -> bool {
    &&& forall|a: int, b: int| 0 <= a < b < s.len() ==> s[a] < s[b]
    &&& forall|a: int| 0 <= a < s.len() ==> 0 <= #[trigger] s[a] < n
}

/// Level `s.len()` of the breadth-first search over `n` distinct indices reaches `s`.
proof fn lemma_level_contains(s: Seq<int>, n: nat)
    requires
        index_subset(s, n),
    ensures
        bfs_level(s.len(), Seq::new(n, |i: int| i)).contains(s),
    decreases s.len(),
{
    let g = Seq::new(n, |i: int| i);
    if s.len() == 0 {
        assert(bfs_level(0, g)[0] =~= s);
    } else {
        let p = s.drop_last();
        let x = s.last();
        assert(index_subset(p, n)) by {
            assert forall|a: int| 0 <= a < p.len() implies 0 <= #[trigger] p[a] < n by {
                assert(p[a] == s[a]);
            }
        }
        lemma_level_contains(p, n);
        let level = bfs_level(p.len(), g);
        let a = choose|a: int| 0 <= a < level.len() && level[a] == p;
        assert(s[s.len() - 1] == x);
        assert(group_free(p, g, x)) by {
            assert forall|m: int| 0 <= m < p.len() implies g[p[m]] != g[x] by {
                assert(p[m] == s[m]);
            }
        }
        if p.len() > 0 {
            assert(p.last() == s[s.len() - 2]);
        }
        lemma_extensions_contain(p, g, next_start(p), x);
        assert(p.push(x) =~= s);
        lemma_next_level_contains(level, g, a, s);
    }
}

/// An increasing list of indices below `n` has at most `n` of them.
proof fn lemma_index_subset_len(s: Seq<int>, n: nat)
    requires
        index_subset(s, n),
    ensures
        s.len() <= n,
{
    if s.len() > 0 {
        assert forall|i: int| 0 <= i < s.len() implies #[trigger] s[i] >= i by {
            lemma_index_at_least(s, n, i);
        }
        assert(s[s.len() - 1] >= s.len() - 1);
    }
}

/// The `i`-th index of an increasing list of indices is at least `i`.
proof fn lemma_index_at_least(s: Seq<int>, n: nat, i: int)
    requires
        index_subset(s, n),
        0 <= i < s.len(),
    ensures
        s[i] >= i,
    decreases i,
{
    if i > 0 {
        lemma_index_at_least(s, n, i - 1);
    }
}

/// The subsets that `get_subsets` lists are every subset of the indices, each exactly once.
pub proof fn lemma_subset_indices_complete(n: nat)
    ensures
        subset_indices(n).no_duplicates(),
        forall|s: Seq<int>| index_subset(s, n) ==> #[trigger] subset_indices(n).contains(s),
        forall|k: int| 0 <= k < subset_indices(n).len() ==> index_subset(#[trigger] subset_indices(n)[k], n),
{
    let g = Seq::new(n, |i: int| i);
    let c = bfs_combinations(n, g);
    let all = subset_indices(n);
    lemma_bfs_combinations(n, g);
    lemma_bfs_combinations_distinct(n, g);
    assert(seq![Seq::<int>::empty()].no_duplicates());
    assert forall|i: int, j: int| 0 <= i < 1 && 0 <= j < c.len() implies seq![Seq::<int>::empty()][i] != c[j] by {
        assert(c[j].len() >= 1);
    }
    vstd::seq_lib::lemma_no_dup_in_concat(seq![Seq::<int>::empty()], c);
    assert forall|s: Seq<int>| index_subset(s, n) implies #[trigger] all.contains(s) by {
        if s.len() == 0 {
            assert(all[0] =~= s);
        } else {
            lemma_index_subset_len(s, n);
            lemma_level_contains(s, n);
            lemma_combinations_contain(n, g, s.len(), s);
            let j = choose|j: int| 0 <= j < c.len() && c[j] == s;
            assert(all[j + 1] == s);
        }
    }
    assert forall|k: int| 0 <= k < all.len() implies index_subset(#[trigger] all[k], n) by {
        if k > 0 {
            assert(all[k] == c[k - 1]);
            assert(is_combination(c[k - 1], g));
        }
    }
}

} // verus!
