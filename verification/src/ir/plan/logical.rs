//! Logical plans: operators as the nodes of a graph whose edges lead from an operator to the
//! operators that consume its output.
use std::collections::{BTreeMap, BTreeSet};
use vstd::prelude::*;

use crate::ir::common::{has_key, lemma_lookup_at, lookup_key, NameOrId, NameOrIdView};
use crate::ir::IrError;
use crate::ir::plan::id_sets::{id_map_keys, id_set_items, ids_increasing, lemma_ids_sorted_unique, lemma_u32_ordered, sorted_ids};
use vstd::std_specs::cmp::PartialEqSpecImpl;
use crate::ir::catalogue::collections::map_get_mut;
use crate::ir::plan::meta::{empty_plan_meta, opt_ref_view, PlanMeta, PlanMetaView};

verus! {

/// The kinds of operator that the bookkeeping of a plan tells apart: those that keep their
/// result under an alias of their own, the one that names the current result, a projection,
/// those that leave the current node as it is, and the rest.
#[derive(Clone, Copy, Debug, PartialEq, Eq, Structural)]
pub enum OperatorKind {
    Scan,
    Vertex,
    Edge,
    Path,
    As,
    Project,
    Select,
    OrderBy,
    Dedup,
    Limit,
    Sink,
    Other,
}

/// An operator of a logical plan, as the bookkeeping of the plan reads it: its kind, the
/// alias that its result is kept under, if any, and, for a projection of one bare tag with no
/// alias and no property, that tag.
#[derive(Debug, PartialEq, Eq)]
pub struct Operator {
    pub kind: OperatorKind,
    pub alias: Option<NameOrId>,
    pub head_tag: Option<NameOrId>,
}

impl Operator {
    /// A copy of the operator.
    pub fn copy(&self) -> (opr: Operator)
        ensures
            opr.kind == self.kind,
            opt_ref_view(&opr.alias) == opt_ref_view(&self.alias),
            opt_ref_view(&opr.head_tag) == opt_ref_view(&self.head_tag),
    {
        let alias = match &self.alias {
            Some(a) => Some(a.copy()),
            None => None,
        };
        let head_tag = match &self.head_tag {
            Some(t) => Some(t.copy()),
            None => None,
        };
        Operator { kind: self.kind, alias, head_tag }
    }
}

/// What a node of a plan holds, as mathematical values.
pub struct NodeView {
    pub id: u32,
    pub kind: OperatorKind,
    pub alias: Option<NameOrIdView>,
    pub head_tag: Option<NameOrIdView>,
    pub parents: Set<u32>,
    pub children: Set<u32>,
}

/// A node of a logical plan: an operator, and the nodes it takes its input from and hands its
/// output to.
#[derive(Debug, PartialEq, Eq)]
pub struct Node {
    pub id: u32,
    pub opr: Operator,
    pub parents: BTreeSet<u32>,
    pub children: BTreeSet<u32>,
}

impl View for Node {
    type V = NodeView;

    open spec fn view(&self) -> NodeView {
        NodeView {
            id: self.id,
            kind: self.opr.kind,
            alias: opt_ref_view(&self.opr.alias),
            head_tag: opt_ref_view(&self.opr.head_tag),
            parents: self.parents@,
            children: self.children@,
        }
    }
}

/// The least member of a nonempty finite set of ids.
pub open spec fn least_id(s: Set<u32>) -> u32 {
    choose|m: u32| s.contains(m) && forall|x: u32| #[trigger] s.contains(x) ==> m <= x
}

/// The least member of a set of ids, where it has one.
fn least_member(s: &BTreeSet<u32>) -> (m: Option<u32>)
    ensures
        match m {
            Some(x) => s@.contains(x) && x == least_id(s@) && forall|y: u32| #[trigger] s@.contains(y) ==> x <= y,
            None => s@ == Set::<u32>::empty(),
        },
{
    let items = id_set_items(s);
    if items.len() == 0 {
        proof {
            assert(s@ =~= Set::<u32>::empty()) by {
                assert forall|y: u32| !s@.contains(y) by {
                    if s@.contains(y) {
                        assert(items@.to_set().contains(y));
                    }
                }
            }
        }
        None
    } else {
        let x = items[0];
        proof {
            assert(items@.to_set().contains(x));
            assert forall|y: u32| #[trigger] s@.contains(y) implies x <= y by {
                assert(items@.to_set().contains(y));
                let j = choose|j: int| 0 <= j < items@.len() && items@[j] == y;
                if j > 0 {
                    assert(items@[0] < items@[j]);
                }
            }
            let m = least_id(s@);
            assert(s@.contains(m) && forall|y: u32| #[trigger] s@.contains(y) ==> m <= y);
            assert(x <= m && m <= x);
        }
        Some(x)
    }
}

impl Node {
    pub fn new(id: u32, opr: Operator) -> (node: Node)
        ensures
            node.opr == opr,
            node@ == (NodeView {
                id,
                kind: opr.kind,
                alias: opt_ref_view(&opr.alias),
                head_tag: opt_ref_view(&opr.head_tag),
                parents: Set::empty(),
                children: Set::empty(),
            }),
    {
        broadcast use vstd::std_specs::btree::group_btree_axioms;
        Node { id, opr, parents: BTreeSet::new(), children: BTreeSet::new() }
    }

    pub fn add_child(&mut self, child_id: u32)
        ensures
            final(self)@ == (NodeView { children: old(self)@.children.insert(child_id), ..old(self)@ }),
    {
        broadcast use vstd::std_specs::btree::group_btree_axioms;
        proof {
            lemma_u32_ordered();
        }
        self.children.insert(child_id);
    }

    /// The child of least id.
    pub fn get_first_child(&self) -> (child: Option<u32>)
        ensures
            match child {
                Some(c) => self@.children.contains(c) && c == least_id(self@.children),
                None => self@.children == Set::<u32>::empty(),
            },
    {
        least_member(&self.children)
    }

    pub fn add_parent(&mut self, parent_id: u32)
        ensures
            final(self)@ == (NodeView { parents: old(self)@.parents.insert(parent_id), ..old(self)@ }),
    {
        broadcast use vstd::std_specs::btree::group_btree_axioms;
        proof {
            lemma_u32_ordered();
        }
        self.parents.insert(parent_id);
    }
}

/// What a logical plan holds, as mathematical values.
pub struct LogicalPlanView {
    pub nodes: Map<u32, NodeView>,
    pub total_size: usize,
    pub plan_meta: PlanMetaView,
}

/// A logical plan: its nodes by id, one more than the greatest id that was ever appended, and
/// the tag data of the plan.
#[derive(Debug)]
pub struct LogicalPlan {
    pub nodes: BTreeMap<u32, Node>,
    pub total_size: usize,
    pub plan_meta: PlanMeta,
}

/// The views of the nodes of a map.
pub open spec fn nodes_view(m: Map<u32, Node>) -> Map<u32, NodeView> {
    m.map_values(|n: Node| n@)
}

impl View for LogicalPlan {
    type V = LogicalPlanView;

    open spec fn view(&self) -> LogicalPlanView {
        LogicalPlanView { nodes: nodes_view(self.nodes@), total_size: self.total_size, plan_meta: self.plan_meta@ }
    }
}

pub(crate) proof fn lemma_nodes_view_insert(m: Map<u32, Node>, k: u32, v: Node)
    ensures
        nodes_view(m.insert(k, v)) == nodes_view(m).insert(k, v@),
{
    assert(nodes_view(m.insert(k, v)) =~= nodes_view(m).insert(k, v@));
}

pub(crate) proof fn lemma_nodes_view_dom(m: Map<u32, Node>)
    ensures
        nodes_view(m).dom() == m.dom(),
{
    assert(nodes_view(m).dom() =~= m.dom());
}

/// Taking one more element of a sequence adds that element to its set.
proof fn lemma_take_one_more(s: Seq<u32>, k: int)
    requires
        0 <= k < s.len(),
    ensures
        s.take(k + 1).to_set() == s.take(k).to_set().insert(s[k]),
{
    let a = s.take(k + 1);
    let b = s.take(k);
    assert forall|x: u32| a.to_set().contains(x) <==> b.to_set().insert(s[k]).contains(x) by {
        if a.to_set().contains(x) {
            assert(a.contains(x));
            let i = choose|i: int| 0 <= i < a.len() && a[i] == x;
            if i < k {
                assert(b[i] == x);
                assert(b.contains(x));
            }
        }
        if b.to_set().insert(s[k]).contains(x) {
            if x == s[k] {
                assert(a[k] == x);
                assert(a.contains(x));
            } else {
                assert(b.contains(x));
                let i = choose|i: int| 0 <= i < b.len() && b[i] == x;
                assert(a[i] == x);
                assert(a.contains(x));
            }
        }
    }
    assert(a.to_set() =~= b.to_set().insert(s[k]));
}

proof fn lemma_nodes_view_remove(m: Map<u32, Node>, k: u32)
    ensures
        nodes_view(m.remove(k)) == nodes_view(m).remove(k),
{
    assert(nodes_view(m.remove(k)) =~= nodes_view(m).remove(k));
}

/// Linking one more parent to the new node `id` changes only that parent's children.
proof fn lemma_children_added_step(nodes: Map<u32, NodeView>, s0: Set<u32>, pid: u32, id: u32)
    requires
        nodes.contains_key(pid),
    ensures
        children_added(nodes, s0, id).insert(
            pid,
            NodeView { children: children_added(nodes, s0, id)[pid].children.insert(id), ..children_added(nodes, s0, id)[pid] },
        ) == children_added(nodes, s0.insert(pid), id),
{
    let cur = children_added(nodes, s0, id);
    let next = children_added(nodes, s0.insert(pid), id);
    let upd = cur.insert(pid, NodeView { children: cur[pid].children.insert(id), ..cur[pid] });
    assert(upd.dom() =~= next.dom());
    assert forall|x: u32| #[trigger] next.contains_key(x) implies upd[x] == next[x] by {
        if x == pid {
            if s0.contains(pid) {
                assert(cur[pid].children.insert(id) =~= cur[pid].children);
                assert(cur[pid].children == nodes[pid].children.insert(id));
            }
            assert(upd[pid].children =~= next[pid].children);
        }
    }
    assert(upd =~= next);
}

impl LogicalPlanView {
    /// Every node is stored under its own id.
    pub open spec fn ids_match(self) -> bool {
        forall|k: u32| #[trigger] self.nodes.contains_key(k) ==> self.nodes[k].id == k
    }
}

/// `m` after keeping `tag` under `node`, unless the tag is kept under a node already.
pub open spec fn tag_node_added(m: PlanMetaView, tag: NameOrIdView, node: u32) -> PlanMetaView {
    PlanMetaView {
        tag_nodes: if has_key(m.tag_nodes, tag) {
            m.tag_nodes
        } else {
            m.tag_nodes.push((tag, node))
        },
        ..m
    }
}

/// The tag data after appending node `id` whose operator is of `kind` with `alias`: a scan,
/// vertex, edge or path operator keeps its alias under the node itself, an `as` operator
/// under the current node.
#[verifier::opaque]
pub open spec fn alias_registered(m: PlanMetaView, kind: OperatorKind, alias: Option<NameOrIdView>, id: u32) -> PlanMetaView {
    match alias {
        Some(a) => match kind {
            OperatorKind::Scan | OperatorKind::Vertex | OperatorKind::Edge | OperatorKind::Path => tag_node_added(m, a, id),
            OperatorKind::As => tag_node_added(m, a, m.curr_node),
            _ => m,
        },
        None => m,
    }
}

/// The nodes after each node of `parents` that the plan holds gained `id` as a child.
pub open spec fn children_added(nodes: Map<u32, NodeView>, parents: Set<u32>, id: u32) -> Map<u32, NodeView> {
    Map::new(
        |k: u32| nodes.contains_key(k),
        |k: u32| if parents.contains(k) {
            NodeView { children: nodes[k].children.insert(id), ..nodes[k] }
        } else {
            nodes[k]
        },
    )
}

/// The ids that the nodes stored under the keys of `ks` carry.
pub open spec fn ids_of(nodes: Map<u32, NodeView>, ks: Set<u32>) -> Set<u32> {
    ks.map(|k: u32| nodes[k].id)
}

/// Whether a node can be appended under `parents`: the plan is empty, no parent is given, or
/// every parent is in the plan.
pub open spec fn parents_present(p: LogicalPlanView, parents: Set<u32>) -> bool {
    p.nodes.dom().len() == 0 || parents == Set::<u32>::empty() || parents.subset_of(p.nodes.dom())
}

/// The plan after appending `n` under `parents`, where they are present: the node is linked to
/// its parents where the plan has nodes and parents are given, stored under its id, its alias
/// kept, and the total size set to one more than its id.
pub open spec fn node_appended(p: LogicalPlanView, n: NodeView, ps: Set<u32>) -> LogicalPlanView {
    let linked = p.nodes.dom().len() > 0 && ps != Set::<u32>::empty();
    let nodes = if linked { children_added(p.nodes, ps, n.id) } else { p.nodes };
    let node = if linked { NodeView { parents: n.parents.union(ids_of(p.nodes, ps)), ..n } } else { n };
    LogicalPlanView {
        nodes: nodes.insert(n.id, node),
        total_size: (n.id + 1) as usize,
        plan_meta: alias_registered(p.plan_meta, n.kind, n.alias, n.id),
    }
}

/// Whether two nodes are equal: the same id, operator and links.
pub open spec fn nodes_equal(a: Node, b: Node) -> bool {
    a@ == b@
}

/// Whether two maps of nodes hold as many nodes and, taken in increasing id order, equal ones.
pub open spec fn plans_equal(a: Map<u32, Node>, b: Map<u32, Node>) -> bool {
    &&& sorted_ids(a.dom()).len() == sorted_ids(b.dom()).len()
    &&& forall|i: int| 0 <= i < sorted_ids(a.dom()).len() ==> nodes_equal(#[trigger] a[sorted_ids(a.dom())[i]], b[sorted_ids(b.dom())[i]])
}

/// Whether two sets of ids are equal.
fn id_sets_equal(a: &BTreeSet<u32>, b: &BTreeSet<u32>) -> (r: bool)
    ensures
        r == (a@ == b@),
{
    let xa = id_set_items(a);
    let xb = id_set_items(b);
    if xa.len() != xb.len() {
        proof {
            if a@ == b@ {
                lemma_ids_sorted_unique(xa@, xb@);
            }
        }
        return false;
    }
    let mut i: usize = 0;
    while i < xa.len()
        invariant
            xa@.len() == xb@.len(),
            ids_increasing(xa@),
            ids_increasing(xb@),
            xa@.to_set() == a@,
            xb@.to_set() == b@,
            i <= xa@.len(),
            forall|j: int| 0 <= j < i ==> xa@[j] == xb@[j],
        decreases xa@.len() - i,
    {
        if xa[i] != xb[i] {
            proof {
                if a@ == b@ {
                    lemma_ids_sorted_unique(xa@, xb@);
                }
            }
            return false;
        }
        i = i + 1;
    }
    proof {
        assert(xa@ =~= xb@);
    }
    true
}

/// Whether two optional names are equal.
fn opt_names_equal(a: &Option<NameOrId>, b: &Option<NameOrId>) -> (r: bool)
    ensures
        r == (opt_ref_view(a) == opt_ref_view(b)),
{
    match (a, b) {
        (Some(x), Some(y)) => x.same_as(y),
        (None, None) => true,
        _ => false,
    }
}

/// Whether two nodes are equal.
fn node_equal(a: &Node, b: &Node) -> (r: bool)
    ensures
        r == nodes_equal(*a, *b),
{
    a.id == b.id && a.opr.kind == b.opr.kind && opt_names_equal(&a.opr.alias, &b.opr.alias) && opt_names_equal(
        &a.opr.head_tag,
        &b.opr.head_tag,
    ) && id_sets_equal(&a.parents, &b.parents) && id_sets_equal(&a.children, &b.children)
}

/// Whether two maps of nodes hold as many nodes and, in increasing id order, equal ones.
fn node_maps_equal(a: &BTreeMap<u32, Node>, b: &BTreeMap<u32, Node>) -> (r: bool)
    ensures
        r == plans_equal(a@, b@),
{
    broadcast use vstd::std_specs::btree::group_btree_axioms;
    proof {
        lemma_u32_ordered();
    }
    let ka = id_map_keys(a);
    let kb = id_map_keys(b);
    let ghost sa = sorted_ids(a@.dom());
    let ghost sb = sorted_ids(b@.dom());
    proof {
        lemma_ids_sorted_unique(ka@, sa);
        lemma_ids_sorted_unique(kb@, sb);
    }
    if ka.len() != kb.len() {
        return false;
    }
    let mut i: usize = 0;
    while i < ka.len()
        invariant
            sa == sorted_ids(a@.dom()),
            sb == sorted_ids(b@.dom()),
            ka@ == sa,
            kb@ == sb,
            sa.len() == sb.len(),
            ka@.to_set() == a@.dom(),
            kb@.to_set() == b@.dom(),
            i <= sa.len(),
            forall|j: int| 0 <= j < i ==> nodes_equal(#[trigger] a@[sa[j]], b@[sb[j]]),
        decreases sa.len() - i,
    {
        proof {
            lemma_u32_ordered();
        }
        assert(ka@.to_set().contains(ka@[i as int]));
        assert(kb@.to_set().contains(kb@[i as int]));
        let x = a.get(&ka[i]).unwrap();
        let y = b.get(&kb[i]).unwrap();
        if !node_equal(x, y) {
            assert(!nodes_equal(a@[sa[i as int]], b@[sb[i as int]]));
            return false;
        }
        i = i + 1;
    }
    true
}

impl PartialEq for LogicalPlan {
    /// Whether the two plans hold as many nodes and, in increasing id order, equal ones.
    fn eq(&self, other: &Self) -> (r: bool) {
        node_maps_equal(&self.nodes, &other.nodes)
    }
}

impl PartialEqSpecImpl for LogicalPlan {
    open spec fn obeys_eq_spec() -> bool {
        true
    }

    open spec fn eq_spec(&self, other: &Self) -> bool {
        plans_equal(self.nodes@, other.nodes@)
    }
}

impl Default for LogicalPlan {
    /// The plan of no nodes, with empty tag data.
    fn default() -> (plan: Self)
        ensures
            plan@.nodes == Map::<u32, NodeView>::empty(),
            plan@.total_size == 0,
            plan@.plan_meta == empty_plan_meta(),
            plan@.plan_meta.wf(),
    {
        broadcast use vstd::std_specs::btree::group_btree_axioms;
        let plan = LogicalPlan { nodes: BTreeMap::new(), total_size: 0, plan_meta: PlanMeta::default() };
        proof {
            assert(plan@.nodes =~= Map::<u32, NodeView>::empty());
        }
        plan
    }
}

impl LogicalPlan {
    /// A plan of one node.
    pub fn with_root(node: Node) -> (plan: Self)
        ensures
            plan@.nodes == map![node.id => node@],
            plan@.total_size == 1,
            plan@.plan_meta == empty_plan_meta(),
            plan@.plan_meta.wf(),
    {
        broadcast use vstd::std_specs::btree::group_btree_axioms;
        proof {
            lemma_u32_ordered();
        }
        let ghost v = node@;
        let id = node.id;
        let mut nodes: BTreeMap<u32, Node> = BTreeMap::new();
        nodes.insert(id, node);
        let plan = LogicalPlan { nodes, total_size: 1, plan_meta: PlanMeta::default() };
        proof {
            lemma_nodes_view_insert(Map::empty(), id, plan.nodes@[id]);
            assert(nodes_view(Map::<u32, Node>::empty()) =~= Map::empty());
            assert(plan@.nodes =~= map![id => v]);
        }
        plan
    }

    /// The node of the given id.
    pub fn get_node(&self, id: u32) -> (node: Option<&Node>)
        ensures
            match node {
                Some(n) => self@.nodes.contains_key(id) && n@ == self@.nodes[id],
                None => !self@.nodes.contains_key(id),
            },
    {
        broadcast use vstd::std_specs::btree::group_btree_axioms;
        proof {
            lemma_u32_ordered();
        }
        self.nodes.get(&id)
    }

    pub fn len(&self) -> (n: usize)
        ensures
            n == self@.nodes.dom().len(),
    {
        broadcast use vstd::std_specs::btree::group_btree_axioms;
        assert(self@.nodes.dom() =~= self.nodes@.dom());
        self.nodes.len()
    }

    pub fn is_empty(&self) -> (b: bool)
        ensures
            b == (self@.nodes.dom().len() == 0),
    {
        broadcast use vstd::std_specs::btree::group_btree_axioms;
        assert(self@.nodes.dom() =~= self.nodes@.dom());
        self.nodes.len() == 0
    }

    /// The node of least id.
    pub fn root(&self) -> (node: Option<&Node>)
        ensures
            match node {
                Some(n) => self@.nodes.contains_key(least_id(self@.nodes.dom())) && n@ == self@.nodes[least_id(self@.nodes.dom())],
                None => self@.nodes.dom().len() == 0,
            },
    {
        broadcast use vstd::std_specs::btree::group_btree_axioms;
        proof {
            lemma_u32_ordered();
        }
        assert(self@.nodes.dom() =~= self.nodes@.dom());
        let keys = id_map_keys(&self.nodes);
        if keys.len() == 0 {
            None
        } else {
            let k = keys[0];
            proof {
                let d = self@.nodes.dom();
                assert(keys@.to_set().contains(k));
                assert forall|y: u32| #[trigger] d.contains(y) implies k <= y by {
                    assert(keys@.to_set().contains(y));
                    let j = choose|j: int| 0 <= j < keys@.len() && keys@[j] == y;
                    if j > 0 {
                        assert(keys@[0] < keys@[j]);
                    }
                }
                assert(d.contains(k) && forall|y: u32| #[trigger] d.contains(y) ==> k <= y);
                let m = least_id(d);
                assert(d.contains(m) && forall|y: u32| #[trigger] d.contains(y) ==> m <= y);
                assert(k <= m && m <= k);
            }
            self.nodes.get(&k)
        }
    }

    /// Appends `node` to the plan with `parent_ids` as its parents, which must all be in the
    /// plan unless the plan is empty or no parent is given. Returns the id of the node, or -1
    /// where a parent is missing, in which case the plan stays as it was.
    pub fn append_node(&mut self, node: Node, parent_ids: Vec<u32>) -> (id: i32)
        requires
            old(self)@.plan_meta.wf(),
            (node.id as int) < usize::MAX,
        ensures
            if parents_present(old(self)@, parent_ids@.to_set()) {
                id == node.id as i32 && final(self)@ == node_appended(old(self)@, node@, parent_ids@.to_set())
            } else {
                id == -1 && final(self)@ == old(self)@
            },
            final(self)@.plan_meta.wf(),
            old(self)@.ids_match() ==> final(self)@.ids_match(),
            parents_present(old(self)@, parent_ids@.to_set()) ==> {
                let linked = old(self)@.nodes.dom().len() > 0 && parent_ids@.len() > 0;
                &&& final(self)@.total_size == node.id + 1
                &&& final(self)@.nodes.dom() == old(self)@.nodes.dom().insert(node.id)
                &&& final(self)@.nodes[node.id].id == node.id
                &&& final(self)@.nodes[node.id].kind == node@.kind
                &&& final(self)@.nodes[node.id].children == node@.children
                &&& (old(self)@.ids_match() ==> final(self)@.nodes[node.id].parents == if linked {
                    node@.parents.union(parent_ids@.to_set())
                } else {
                    node@.parents
                })
                &&& forall|j: u32| #[trigger] old(self)@.nodes.contains_key(j) && j != node.id ==> final(self)@.nodes[j] == if linked
                    && parent_ids@.contains(j) {
                    NodeView { children: old(self)@.nodes[j].children.insert(node.id), ..old(self)@.nodes[j] }
                } else {
                    old(self)@.nodes[j]
                }
                &&& final(self)@.plan_meta.curr_node == old(self)@.plan_meta.curr_node
            },
    {
        broadcast use vstd::std_specs::btree::group_btree_axioms;
        proof {
            lemma_u32_ordered();
            reveal(alias_registered);
        }
        let ghost p = self@;
        let ghost n = node@;
        let id = node.id;
        let mut node = node;
        let linked = !self.is_empty() && parent_ids.len() > 0;
        if linked {
            let mut k: usize = 0;
            while k < parent_ids.len()
                invariant
                    k <= parent_ids@.len(),
                    self@ == p,
                    p.plan_meta.wf(),
                    p.nodes.dom().len() > 0,
                    parent_ids@.len() > 0,
                    forall|j: int| 0 <= j < k ==> p.nodes.contains_key(#[trigger] parent_ids@[j]),
                decreases parent_ids@.len() - k,
            {
                if self.get_node(parent_ids[k]).is_none() {
                    proof {
                        assert(parent_ids@.contains(parent_ids@[k as int]));
                        assert(parent_ids@.to_set().contains(parent_ids@[k as int]));
                    }
                    return -1;
                }
                k = k + 1;
            }
            assert(parent_ids@.take(0).to_set() =~= Set::<u32>::empty());
            assert(self@.nodes =~= children_added(p.nodes, Set::<u32>::empty(), id));
            assert(node@ == (NodeView { parents: n.parents.union(ids_of(p.nodes, Set::<u32>::empty())), ..n })) by {
                assert(n.parents.union(ids_of(p.nodes, Set::<u32>::empty())) =~= n.parents);
            }
            let mut k: usize = 0;
            while k < parent_ids.len()
                invariant
                    k <= parent_ids@.len(),
                    self.plan_meta@ == p.plan_meta,
                    self.total_size == p.total_size,
                    self@.nodes == children_added(p.nodes, parent_ids@.take(k as int).to_set(), id),
                    node@ == (NodeView { parents: n.parents.union(ids_of(p.nodes, parent_ids@.take(k as int).to_set())), ..n }),
                    forall|j: int| 0 <= j < parent_ids@.len() ==> p.nodes.contains_key(#[trigger] parent_ids@[j]),
                decreases parent_ids@.len() - k,
            {
                proof {
                    lemma_u32_ordered();
                    lemma_nodes_view_dom(self.nodes@);
                    assert(p.nodes.contains_key(parent_ids@[k as int]));
                }
                let pid = parent_ids[k];
                let ghost before = self.nodes@;
                let ghost s0 = parent_ids@.take(k as int).to_set();
                let parent_id = self.get_node(pid).unwrap().id;
                node.add_parent(parent_id);
                let parent = map_get_mut(&mut self.nodes, pid).unwrap();
                parent.add_child(id);
                proof {
                    let s1 = parent_ids@.take(k + 1).to_set();
                    lemma_take_one_more(parent_ids@, k as int);
                    assert(p.nodes.contains_key(parent_ids@[k as int]));
                    lemma_nodes_view_insert(before, pid, self.nodes@[pid]);
                    let cur = children_added(p.nodes, s0, id);
                    assert(s1 == s0.insert(pid));
                    lemma_children_added_step(p.nodes, s0, pid, id);
                    assert(nodes_view(self.nodes@) == children_added(p.nodes, s1, id));
                    assert(ids_of(p.nodes, s1) =~= ids_of(p.nodes, s0).insert(parent_id)) by {
                        assert(p.nodes[pid].id == parent_id);
                        assert forall|y: u32| #[trigger] ids_of(p.nodes, s1).contains(y) implies ids_of(p.nodes, s0).insert(parent_id).contains(y) by {
                            let x = choose|x: u32| s1.contains(x) && y == p.nodes[x].id;
                            if x != pid {
                                assert(s0.contains(x));
                            }
                        }
                        assert forall|y: u32| #[trigger] ids_of(p.nodes, s0).insert(parent_id).contains(y) implies ids_of(p.nodes, s1).contains(y) by {
                            if y == parent_id {
                                assert(s1.contains(pid));
                            } else {
                                let x = choose|x: u32| s0.contains(x) && y == p.nodes[x].id;
                                assert(s1.contains(x));
                            }
                        }
                    }
                    assert(n.parents.union(ids_of(p.nodes, s0)).insert(parent_id) =~= n.parents.union(ids_of(p.nodes, s1)));
                }
                k = k + 1;
            }
            proof {
                assert(parent_ids@.take(parent_ids@.len() as int) == parent_ids@);
            }
        }
        let ghost linked_nodes = self.nodes@;
        let ghost linked_node = node@;
        match &node.opr.alias {
            Some(a) => match node.opr.kind {
                OperatorKind::Scan | OperatorKind::Vertex | OperatorKind::Edge | OperatorKind::Path => {
                    self.plan_meta.insert_tag_node(a.copy(), id);
                },
                OperatorKind::As => {
                    let curr = self.plan_meta.get_curr_node();
                    self.plan_meta.insert_tag_node(a.copy(), curr);
                },
                _ => {},
            },
            None => {},
        }
        self.nodes.insert(id, node);
        self.total_size = id as usize + 1;
        proof {
            lemma_nodes_view_insert(linked_nodes, id, self.nodes@[id]);
            assert(parent_ids@.len() == 0 <==> parent_ids@.to_set() == Set::<u32>::empty()) by {
                if parent_ids@.len() > 0 {
                    assert(parent_ids@.to_set().contains(parent_ids@[0]));
                } else {
                    assert(parent_ids@.to_set() =~= Set::<u32>::empty());
                }
            }
            assert(self@ == node_appended(p, n, parent_ids@.to_set()));
            assert(p.nodes.dom().len() == 0 || parent_ids@.len() == 0 ==> !linked);
        }
        id as i32
    }
}

/// The current node just before an operator of `kind` is appended as node `id`: a scan or an
/// edge expansion makes `id` current; a projection of a bare tag kept under a node makes that
/// node current; any other operator leaves it as it is.
pub open spec fn curr_before_append(m: PlanMetaView, kind: OperatorKind, head_tag: Option<NameOrIdView>, id: u32) -> u32 {
    match kind {
        OperatorKind::Scan | OperatorKind::Edge => id,
        OperatorKind::Project => match head_tag {
            Some(t) => match lookup_key(m.tag_nodes, t) {
                Some(n) => n,
                None => m.curr_node,
            },
            None => m.curr_node,
        },
        _ => m.curr_node,
    }
}

/// Whether the node appended for an operator of `kind` becomes the current node: not for a scan
/// or an edge expansion (made current before), an alias, a selection, an ordering, a dedup, a
/// limit or a sink, nor for a projection that made the node of its tag current; for any
/// other operator it does.
pub open spec fn curr_after_append(m: PlanMetaView, kind: OperatorKind, head_tag: Option<NameOrIdView>) -> bool {
    match kind {
        OperatorKind::Scan | OperatorKind::Edge | OperatorKind::As | OperatorKind::Select
        | OperatorKind::OrderBy | OperatorKind::Dedup | OperatorKind::Limit | OperatorKind::Sink => false,
        OperatorKind::Project => match head_tag {
            Some(t) => lookup_key(m.tag_nodes, t) is None,
            None => true,
        },
        _ => true,
    }
}

/// The plan after an operator, whose node (of no links) is `n` and whose projected tag is
/// `head_tag`, is appended under `ps`: the current node moved before the append as
/// `curr_before_append` says, the node appended, then made current where
/// `curr_after_append` says so. Where a parent is missing, the plan is as it was.
pub open spec fn operator_appended(p: LogicalPlanView, n: NodeView, head_tag: Option<NameOrIdView>, ps: Set<u32>) -> LogicalPlanView {
    if parents_present(p, ps) {
        let m1 = PlanMetaView { curr_node: curr_before_append(p.plan_meta, n.kind, head_tag, n.id), ..p.plan_meta };
        let q = node_appended(LogicalPlanView { plan_meta: m1, ..p }, n, ps);
        if curr_after_append(p.plan_meta, n.kind, head_tag) {
            LogicalPlanView { plan_meta: PlanMetaView { curr_node: n.id, ..q.plan_meta }, ..q }
        } else {
            q
        }
    } else {
        p
    }
}

impl LogicalPlan {
    /// Appends `opr` as a new node, whose id is the total size of the plan, under `parent_ids`,
    /// and keeps the current node of the tag data up to date: a scan or an edge expansion makes
    /// the new node current; a projection of a bare tag kept under a node makes that node
    /// current; an alias, a selection, an ordering, a dedup, a limit or a sink leave it as it
    /// was; any other operator makes the new node current. Returns the id of the new node, or
    /// -1 where a parent is missing, in which case the plan stays as it was.
    pub fn append_operator_as_node(&mut self, opr: Operator, parent_ids: Vec<u32>) -> (id: Result<i32, IrError>)
        requires
            old(self)@.plan_meta.wf(),
            old(self)@.total_size < i32::MAX,
        ensures
            final(self)@ == operator_appended(
                old(self)@,
                NodeView {
                    id: old(self)@.total_size as u32,
                    kind: opr.kind,
                    alias: opt_ref_view(&opr.alias),
                    head_tag: opt_ref_view(&opr.head_tag),
                    parents: Set::empty(),
                    children: Set::empty(),
                },
                opt_ref_view(&opr.head_tag),
                parent_ids@.to_set(),
            ),
            id == Ok::<i32, IrError>(
                if parents_present(old(self)@, parent_ids@.to_set()) { old(self)@.total_size as i32 } else { -1i32 },
            ),
            final(self)@.plan_meta.wf(),
            old(self)@.ids_match() ==> final(self)@.ids_match(),
            final(self)@.plan_meta.curr_node == if !parents_present(old(self)@, parent_ids@.to_set()) {
                old(self)@.plan_meta.curr_node
            } else {
                match opr.kind {
                    OperatorKind::As | OperatorKind::Select | OperatorKind::OrderBy | OperatorKind::Dedup | OperatorKind::Limit
                    | OperatorKind::Sink => old(self)@.plan_meta.curr_node,
                    OperatorKind::Project => match opt_ref_view(&opr.head_tag) {
                        Some(t) => match lookup_key(old(self)@.plan_meta.tag_nodes, t) {
                            Some(n) => n,
                            None => old(self)@.total_size as u32,
                        },
                        None => old(self)@.total_size as u32,
                    },
                    _ => old(self)@.total_size as u32,
                }
            },
            parents_present(old(self)@, parent_ids@.to_set()) ==> match opt_ref_view(&opr.alias) {
                Some(a) => lookup_key(final(self)@.plan_meta.tag_nodes, a) == if has_key(old(self)@.plan_meta.tag_nodes, a) {
                    lookup_key(old(self)@.plan_meta.tag_nodes, a)
                } else {
                    match opr.kind {
                        OperatorKind::Scan | OperatorKind::Vertex | OperatorKind::Edge | OperatorKind::Path => Some(
                            old(self)@.total_size as u32,
                        ),
                        OperatorKind::As => Some(old(self)@.plan_meta.curr_node),
                        _ => None,
                    }
                },
                None => final(self)@.plan_meta.tag_nodes == old(self)@.plan_meta.tag_nodes,
            },
    {
        let ghost p = self@;
        let old_curr = self.plan_meta.get_curr_node();
        let new_id = self.total_size as u32;
        let mut update_curr = false;
        match opr.kind {
            OperatorKind::Scan | OperatorKind::Edge => {
                self.plan_meta.set_curr_node(new_id);
            },
            OperatorKind::Project => {
                update_curr = true;
                if let Some(tag) = &opr.head_tag {
                    if let Some(node) = self.plan_meta.get_tag_node(tag) {
                        update_curr = false;
                        self.plan_meta.set_curr_node(node);
                    }
                }
            },
            OperatorKind::As | OperatorKind::Select | OperatorKind::OrderBy | OperatorKind::Dedup
            | OperatorKind::Limit | OperatorKind::Sink => {},
            _ => {
                update_curr = true;
            },
        }
        let ghost n = NodeView {
            id: new_id,
            kind: opr.kind,
            alias: opt_ref_view(&opr.alias),
            head_tag: opt_ref_view(&opr.head_tag),
            parents: Set::empty(),
            children: Set::empty(),
        };
        let ghost ht = opt_ref_view(&opr.head_tag);
        let ghost m1 = PlanMetaView { curr_node: curr_before_append(p.plan_meta, n.kind, ht, n.id), ..p.plan_meta };
        assert(self.plan_meta@ == m1);
        assert(self@ == (LogicalPlanView { plan_meta: m1, ..p }));
        assert(update_curr == curr_after_append(p.plan_meta, n.kind, ht));
        let new_node = self.append_node(Node::new(new_id, opr), parent_ids);
        if new_node < 0 {
            self.plan_meta.set_curr_node(old_curr);
            proof {
                assert(self.plan_meta@ == p.plan_meta);
                assert(self@ == p);
            }
        } else if update_curr {
            self.plan_meta.set_curr_node(new_node as u32);
        }
        proof {
            reveal(alias_registered);
            if parents_present(p, parent_ids@.to_set()) {
                if let Some(a) = n.alias {
                    let t0 = p.plan_meta.tag_nodes;
                    let t1 = self@.plan_meta.tag_nodes;
                    if !has_key(t0, a) && t1 != t0 {
                        assert(t1.len() == t0.len() + 1);
                        lemma_lookup_at(t1, a, t0.len() as int);
                    }
                }
            }
        }
        Ok(new_node)
    }
}

/// The nodes after one branch plan of nodes `sp` is appended below the node stored under
/// `node_id`, whose id is `nid`: where the branch plan has nodes, its node of least id becomes
/// a child of that node (while the plan still holds that node) and gains `nid` as a parent;
/// then all the nodes of the branch plan are stored, replacing those of the same ids. The flag
/// tells whether the plan still holds the node that the branches hang from.
pub open spec fn branch_appended(
    nodes: Map<u32, NodeView>,
    attached: bool,
    node_id: u32,
    nid: u32,
    sp: Map<u32, NodeView>,
) -> (Map<u32, NodeView>, bool) {
    if sp.dom() == Set::<u32>::empty() {
        (nodes, attached)
    } else {
        let r = least_id(sp.dom());
        let nodes1 = if attached {
            nodes.insert(node_id, NodeView { children: nodes[node_id].children.insert(r), ..nodes[node_id] })
        } else {
            nodes
        };
        let sp1 = sp.insert(r, NodeView { parents: sp[r].parents.insert(nid), ..sp[r] });
        (nodes1.union_prefer_right(sp1), attached && !sp.contains_key(node_id))
    }
}

/// The nodes after each of the branch plans of nodes `sps` is appended in turn.
pub open spec fn branches_appended(
    nodes: Map<u32, NodeView>,
    attached: bool,
    node_id: u32,
    nid: u32,
    sps: Seq<Map<u32, NodeView>>,
) -> (Map<u32, NodeView>, bool)
    decreases sps.len(),
{
    if sps.len() == 0 {
        (nodes, attached)
    } else {
        let prev = branches_appended(nodes, attached, node_id, nid, sps.drop_last());
        branch_appended(prev.0, prev.1, node_id, nid, sps.last())
    }
}

/// Moves every node of `src` into `dst`, replacing the nodes of the same ids.
fn extend_nodes(dst: &mut BTreeMap<u32, Node>, src: BTreeMap<u32, Node>)
    ensures
        nodes_view(final(dst)@) == nodes_view(old(dst)@).union_prefer_right(nodes_view(src@)),
{
    broadcast use vstd::std_specs::btree::group_btree_axioms;
    proof {
        lemma_u32_ordered();
    }
    let ghost d0 = nodes_view(dst@);
    let ghost s0 = nodes_view(src@);
    let mut src = src;
    let keys = id_map_keys(&src);
    proof {
        lemma_nodes_view_dom(src@);
    }
    let mut i: usize = 0;
    while i < keys.len()
        invariant
            i <= keys@.len(),
            ids_increasing(keys@),
            keys@.to_set() == s0.dom(),
            forall|j: int| 0 <= j < i ==> !src@.contains_key(#[trigger] keys@[j]),
            forall|k: u32| #[trigger] src@.contains_key(k) ==> s0.contains_key(k) && nodes_view(src@)[k] == s0[k],
            forall|j: int| i <= j < keys@.len() ==> src@.contains_key(#[trigger] keys@[j]),
            nodes_view(dst@) == d0.union_prefer_right(s0.restrict(keys@.take(i as int).to_set())),
        decreases keys@.len() - i,
    {
        proof {
            lemma_u32_ordered();
        }
        let k = keys[i];
        let ghost before_dst = dst@;
        let ghost before_src = src@;
        let v = src.remove(&k).unwrap();
        proof {
            assert(nodes_view(before_src)[k] == s0[k]);
        }
        dst.insert(k, v);
        proof {
            lemma_nodes_view_insert(before_dst, k, v);
            lemma_take_one_more(keys@, i as int);
            let t0 = keys@.take(i as int).to_set();
            let t1 = keys@.take(i + 1).to_set();
            assert(nodes_view(dst@) =~= d0.union_prefer_right(s0.restrict(t1)));
            assert forall|k2: u32| #[trigger] src@.contains_key(k2) implies s0.contains_key(k2) && nodes_view(src@)[k2] == s0[k2] by {
                assert(before_src.contains_key(k2));
                assert(nodes_view(before_src)[k2] == s0[k2]);
            }
            assert forall|j: int| i + 1 <= j < keys@.len() implies src@.contains_key(#[trigger] keys@[j]) by {
                assert(keys@[i as int] < keys@[j]);
            }
        }
        i = i + 1;
    }
    proof {
        assert(keys@.take(keys@.len() as int) == keys@);
        assert(s0.restrict(keys@.to_set()) =~= s0);
    }
}

/// The nodes of each of a list of plans.
pub open spec fn plans_nodes(plans: Seq<LogicalPlan>) -> Seq<Map<u32, NodeView>> {
    plans.map_values(|sp: LogicalPlan| sp@.nodes)
}

impl LogicalPlan {
    /// Appends the branch plans `subplans` below the node stored under `node_id`, where that
    /// node has no children yet; otherwise the plan stays as it was. The tag data and total
    /// sizes of the branch plans are not taken over.
    pub fn append_branch_plans(&mut self, node_id: u32, subplans: Vec<LogicalPlan>)
        requires
            old(self)@.nodes.contains_key(node_id),
        ensures
            if old(self)@.nodes[node_id].children != Set::<u32>::empty() {
                final(self)@ == old(self)@
            } else {
                final(self)@ == (LogicalPlanView {
                    nodes: branches_appended(
                        old(self)@.nodes,
                        true,
                        node_id,
                        old(self)@.nodes[node_id].id,
                        plans_nodes(subplans@),
                    ).0,
                    ..old(self)@
                })
            },
    {
        broadcast use vstd::std_specs::btree::group_btree_axioms;
        proof {
            lemma_u32_ordered();
            lemma_nodes_view_dom(self.nodes@);
        }
        let ghost p = self@;
        let ghost sps = plans_nodes(subplans@);
        let (nid, has_children) = match self.nodes.get(&node_id) {
            Some(n) => (n.id, !n.children.is_empty()),
            None => (0, false),
        };
        if has_children {
            return;
        }
        proof {
            assert(p.nodes[node_id].children =~= Set::<u32>::empty());
        }
        let mut subplans = subplans;
        let ghost all = subplans@;
        let mut attached = true;
        let n = subplans.len();
        let mut i: usize = 0;
        while i < n
            invariant
                i <= n,
                n == all.len(),
                sps == plans_nodes(all),
                subplans@ == all.subrange(i as int, n as int),
                (self@.nodes, attached) == branches_appended(p.nodes, true, node_id, nid, sps.take(i as int)),
                attached ==> self@.nodes.contains_key(node_id),
                self@.total_size == p.total_size,
                self@.plan_meta == p.plan_meta,
                nid == p.nodes[node_id].id,
            decreases n - i,
        {
            proof {
                lemma_u32_ordered();
                assert(sps.take(i + 1).drop_last() == sps.take(i as int));
                assert(subplans@[0] == all[i as int]);
            }
            let ghost before = self.nodes@;
            let mut sp = subplans.remove(0);
            let ghost spv = sp@.nodes;
            proof {
                assert(spv == sps[i as int]);
                lemma_nodes_view_dom(sp.nodes@);
            }
            let keys = id_map_keys(&sp.nodes);
            if keys.len() > 0 {
                let r = keys[0];
                proof {
                    assert(keys@.to_set().contains(r));
                    assert forall|y: u32| #[trigger] spv.dom().contains(y) implies r <= y by {
                        assert(keys@.to_set().contains(y));
                        let j = choose|j: int| 0 <= j < keys@.len() && keys@[j] == y;
                        if j > 0 {
                            assert(keys@[0] < keys@[j]);
                        }
                    }
                    assert(spv.dom().contains(r) && forall|y: u32| #[trigger] spv.dom().contains(y) ==> r <= y);
                    let m = least_id(spv.dom());
                    assert(spv.dom().contains(m) && forall|y: u32| #[trigger] spv.dom().contains(y) ==> m <= y);
                    assert(r == m);
                    assert(spv.dom() != Set::<u32>::empty()) by {
                        assert(spv.dom().contains(r));
                    }
                }
                if attached {
                    proof {
                        lemma_nodes_view_dom(self.nodes@);
                    }
                    let ghost before_attach = self.nodes@;
                    let node = map_get_mut(&mut self.nodes, node_id).unwrap();
                    node.add_child(r);
                    proof {
                        lemma_nodes_view_insert(before_attach, node_id, self.nodes@[node_id]);
                    }
                }
                let ghost before_root = sp.nodes@;
                let root = map_get_mut(&mut sp.nodes, r).unwrap();
                root.add_parent(nid);
                proof {
                    lemma_nodes_view_insert(before_root, r, sp.nodes@[r]);
                }
            } else {
                proof {
                    assert(spv.dom() =~= Set::<u32>::empty()) by {
                        assert forall|y: u32| !spv.dom().contains(y) by {
                            if spv.dom().contains(y) {
                                assert(keys@.to_set().contains(y));
                            }
                        }
                    }
                    assert(nodes_view(sp.nodes@) =~= Map::<u32, NodeView>::empty());
                }
            }
            let detach = sp.nodes.contains_key(&node_id);
            let ghost mid = self.nodes@;
            extend_nodes(&mut self.nodes, sp.nodes);
            if detach {
                attached = false;
            }
            proof {
                lemma_nodes_view_dom(self.nodes@);
                if keys@.len() == 0 {
                    assert(nodes_view(self.nodes@) =~= nodes_view(mid));
                }
                assert(spv.dom() == sp@.nodes.dom() || true);
            }
            i = i + 1;
        }
        proof {
            assert(sps.take(n as int) == sps);
        }
    }
}

impl LogicalPlanView {
    /// Among the nodes of the plan, a node lists another as a child exactly when the other
    /// lists it as a parent.
    pub open spec fn links_consistent(self) -> bool {
        forall|a: u32, b: u32|
            self.nodes.contains_key(a) && self.nodes.contains_key(b) ==> (#[trigger] self.nodes[a].children.contains(b)
                <==> #[trigger] self.nodes[b].parents.contains(a))
    }
}

/// A node with its links to the nodes of `gone` dropped.
pub open spec fn unlinked(v: NodeView, gone: Set<u32>) -> NodeView {
    NodeView { parents: v.parents.difference(gone), children: v.children.difference(gone), ..v }
}

/// Whether `f` is `q` after removing node `id`: the removed nodes are `id` and nodes all of
/// whose parents were removed, every node all of whose parents were removed is removed, and
/// the nodes that stay lose their links to the removed ones.
pub open spec fn removal_of(q: LogicalPlanView, f: LogicalPlanView, id: u32) -> bool {
    let gone = q.nodes.dom().difference(f.nodes.dom());
    &&& f.nodes.dom().subset_of(q.nodes.dom())
    &&& !f.nodes.contains_key(id)
    &&& f.total_size == q.total_size
    &&& f.plan_meta == q.plan_meta
    &&& forall|k: u32| #[trigger] f.nodes.contains_key(k) ==> f.nodes[k] == unlinked(q.nodes[k], gone)
    &&& forall|r: u32| #[trigger] gone.contains(r) && r != id ==> q.nodes[r].parents != Set::<u32>::empty()
        && q.nodes[r].parents.subset_of(gone)
    &&& forall|k: u32| #[trigger] f.nodes.contains_key(k) ==> !(q.nodes[k].parents != Set::<u32>::empty()
        && q.nodes[k].parents.subset_of(gone))
}

/// How far the removal of node `id` from `q` has come in `s`, once the children of `id` in
/// `done` have been handled: the removed nodes are `id` and nodes all of whose parents were
/// removed; the nodes that stay have lost their links to removed nodes, except that a child of
/// `id` not handled yet still lists `id` as a parent; and no handled node, or node that is
/// not a child of `id`, stays with all of its parents removed.
pub open spec fn removal_progress(q: LogicalPlanView, id: u32, s: LogicalPlanView, done: Set<u32>) -> bool {
    let g = q.nodes.dom().difference(s.nodes.dom());
    &&& s.nodes.dom().subset_of(q.nodes.dom())
    &&& !s.nodes.contains_key(id)
    &&& s.total_size == q.total_size
    &&& s.plan_meta == q.plan_meta
    &&& s.links_consistent()
    &&& forall|k: u32| #[trigger] s.nodes.contains_key(k) ==> s.nodes[k] == (NodeView {
        parents: q.nodes[k].parents.difference(
            if done.contains(k) || !q.nodes[id].children.contains(k) { g } else { g.remove(id) },
        ),
        children: q.nodes[k].children.difference(g),
        ..q.nodes[k]
    })
    &&& forall|r: u32| #[trigger] g.contains(r) && r != id ==> q.nodes[r].parents != Set::<u32>::empty() && q.nodes[r].parents.subset_of(g)
    &&& forall|k: u32| #[trigger] s.nodes.contains_key(k) && (done.contains(k) || !q.nodes[id].children.contains(k))
        ==> !(q.nodes[k].parents != Set::<u32>::empty() && q.nodes[k].parents.subset_of(g))
}

/// Handling child `c` of `id` keeps the removal going: `s1` is `s0` with `c` forgetting `id` as
/// a parent, where `s0` holds `c`, and `s2` is `s1` after removing `c` where `c` was left
/// without parents.
proof fn lemma_removal_step(
    q: LogicalPlanView,
    id: u32,
    s0: LogicalPlanView,
    s1: LogicalPlanView,
    s2: LogicalPlanView,
    c: u32,
    done: Set<u32>,
    orphan: bool,
)
    requires
        q.links_consistent(),
        q.nodes.contains_key(id),
        q.nodes[id].children.contains(c),
        !done.contains(c),
        removal_progress(q, id, s0, done),
        s0.nodes.contains_key(c) ==> s1 == (LogicalPlanView {
            nodes: s0.nodes.insert(c, NodeView { parents: s0.nodes[c].parents.remove(id), ..s0.nodes[c] }),
            ..s0
        }) && orphan == (s1.nodes[c].parents == Set::<u32>::empty()),
        !s0.nodes.contains_key(c) ==> s1 == s0 && !orphan,
        orphan ==> removal_of(s1, s2, c) && s2.links_consistent(),
        !orphan ==> s2 == s1,
    ensures
        removal_progress(q, id, s2, done.insert(c)),
{
    let g0 = q.nodes.dom().difference(s0.nodes.dom());
    let g2 = q.nodes.dom().difference(s2.nodes.dom());
    let d2 = done.insert(c);
    if !s0.nodes.contains_key(c) {
        assert(g2 =~= g0);
        assert forall|k: u32| #[trigger] s2.nodes.contains_key(k) implies (d2.contains(k) || !q.nodes[id].children.contains(k))
            == (done.contains(k) || !q.nodes[id].children.contains(k)) by {}
        return;
    }
    assert(q.nodes.contains_key(c));
    assert(id != c);
    // What `c` keeps as parents once it forgot `id`
    assert(s1.nodes[c].parents =~= q.nodes[c].parents.difference(g0)) by {
        assert(s0.nodes[c].parents == q.nodes[c].parents.difference(g0.remove(id)));
    }
    assert(s1.nodes.dom() =~= s0.nodes.dom());
    assert(s1.links_consistent()) by {
        assert forall|a: u32, b: u32| s1.nodes.contains_key(a) && s1.nodes.contains_key(b) implies (#[trigger] s1.nodes[a].children.contains(b)
            <==> #[trigger] s1.nodes[b].parents.contains(a)) by {
            assert(s0.nodes[a].children.contains(b) <==> s0.nodes[b].parents.contains(a));
        }
    }
    if !orphan {
        assert(g2 =~= g0);
        assert forall|k: u32| #[trigger] s2.nodes.contains_key(k) implies s2.nodes[k] == (NodeView {
            parents: q.nodes[k].parents.difference(
                if d2.contains(k) || !q.nodes[id].children.contains(k) { g2 } else { g2.remove(id) },
            ),
            children: q.nodes[k].children.difference(g2),
            ..q.nodes[k]
        }) by {
            if k != c {
                assert(s2.nodes[k] == s0.nodes[k]);
            }
        }
        assert forall|k: u32| #[trigger] s2.nodes.contains_key(k) && (d2.contains(k) || !q.nodes[id].children.contains(k))
            implies !(q.nodes[k].parents != Set::<u32>::empty() && q.nodes[k].parents.subset_of(g2)) by {
            if k == c {
                if q.nodes[c].parents.subset_of(g2) {
                    assert(q.nodes[c].parents.difference(g0) =~= Set::<u32>::empty());
                }
            }
        }
        return;
    }
    // `c` is removed, and with it the nodes that the removal of `c` takes away
    let rm = s1.nodes.dom().difference(s2.nodes.dom());
    assert(g2 =~= g0.union(rm));
    assert(!rm.contains(id));
    assert(g2.remove(id) =~= g0.remove(id).union(rm));
    assert forall|k: u32| #[trigger] s2.nodes.contains_key(k) implies s2.nodes[k] == (NodeView {
        parents: q.nodes[k].parents.difference(
            if d2.contains(k) || !q.nodes[id].children.contains(k) { g2 } else { g2.remove(id) },
        ),
        children: q.nodes[k].children.difference(g2),
        ..q.nodes[k]
    }) by {
        assert(k != c);
        assert(s1.nodes.contains_key(k));
        assert(s1.nodes[k] == s0.nodes[k]);
        assert(s2.nodes[k] == unlinked(s1.nodes[k], rm));
        assert(q.nodes[k].children.difference(g0).difference(rm) =~= q.nodes[k].children.difference(g2));
        assert(q.nodes[k].parents.difference(g0).difference(rm) =~= q.nodes[k].parents.difference(g2));
        assert(q.nodes[k].parents.difference(g0.remove(id)).difference(rm) =~= q.nodes[k].parents.difference(g2.remove(id)));
    }
    assert forall|r: u32| #[trigger] g2.contains(r) && r != id implies q.nodes[r].parents != Set::<u32>::empty()
        && q.nodes[r].parents.subset_of(g2) by {
        if g0.contains(r) {
        } else if r == c {
            assert(q.nodes[c].parents.contains(id));
            assert(q.nodes[c].parents.subset_of(g0)) by {
                assert forall|x: u32| q.nodes[c].parents.contains(x) implies g0.contains(x) by {
                    if !g0.contains(x) {
                        assert(q.nodes[c].parents.difference(g0).contains(x));
                    }
                }
            }
        } else {
            assert(rm.contains(r));
            assert(s1.nodes[r] == s0.nodes[r]);
            let x = s1.nodes[r].parents.choose();
            assert(s1.nodes[r].parents.contains(x)) by {
                assert(!(s1.nodes[r].parents =~= Set::<u32>::empty()));
            }
            assert(q.nodes[r].parents.contains(x));
            assert forall|y: u32| q.nodes[r].parents.contains(y) implies g2.contains(y) by {
                if !g2.contains(y) {
                    assert(!g0.contains(y));
                    assert(s1.nodes[r].parents.contains(y));
                }
            }
        }
    }
    assert forall|k: u32| #[trigger] s2.nodes.contains_key(k) && (d2.contains(k) || !q.nodes[id].children.contains(k))
        implies !(q.nodes[k].parents != Set::<u32>::empty() && q.nodes[k].parents.subset_of(g2)) by {
        assert(k != c);
        assert(s1.nodes.contains_key(k));
        assert(s1.nodes[k] == s0.nodes[k]);
        assert(done.contains(k) || !q.nodes[id].children.contains(k));
        if q.nodes[k].parents != Set::<u32>::empty() && q.nodes[k].parents.subset_of(g2) {
            assert(s1.nodes[k].parents =~= q.nodes[k].parents.difference(g0));
            if s1.nodes[k].parents =~= Set::<u32>::empty() {
                assert(q.nodes[k].parents.subset_of(g0)) by {
                    assert forall|x: u32| q.nodes[k].parents.contains(x) implies g0.contains(x) by {
                        if !g0.contains(x) {
                            assert(s1.nodes[k].parents.contains(x));
                        }
                    }
                }
            } else {
                assert(s1.nodes[k].parents.subset_of(rm));
            }
        }
    }
}

impl LogicalPlan {
    /// Removes node `id` from the plan: each of its parents forgets it as a child, each of its
    /// children forgets it as a parent, and a child left with no parent is removed in the same
    /// way. The total size stays.
    pub fn remove_node(&mut self, id: u32) -> (removed: Option<Node>)
        requires
            old(self)@.links_consistent(),
        ensures
            match removed {
                Some(n) => old(self).nodes@.contains_key(id) && n == old(self).nodes@[id],
                None => !old(self).nodes@.contains_key(id) && final(self)@ == old(self)@,
            },
            removal_of(old(self)@, final(self)@, id),
            final(self)@.links_consistent(),
        decreases old(self)@.nodes.dom().len(),
    {
        broadcast use vstd::std_specs::btree::group_btree_axioms;
        proof {
            lemma_u32_ordered();
            lemma_nodes_view_dom(self.nodes@);
        }
        let ghost q = self@;
        let ghost qm = self.nodes@;
        proof {
            lemma_nodes_view_dom(qm);
            assert(self.nodes@.dom().finite());
        }
        let removed = self.nodes.remove(&id);
        match removed {
            None => {
                proof {
                    assert(self.nodes@ =~= qm);
                    let g = q.nodes.dom().difference(self@.nodes.dom());
                    assert(g =~= Set::<u32>::empty());
                    assert forall|k: u32| #[trigger] self@.nodes.contains_key(k) implies self@.nodes[k] == unlinked(q.nodes[k], g) by {
                        assert(q.nodes[k].parents.difference(g) =~= q.nodes[k].parents);
                        assert(q.nodes[k].children.difference(g) =~= q.nodes[k].children);
                    }
                    assert forall|k: u32| #[trigger] self@.nodes.contains_key(k) implies !(q.nodes[k].parents != Set::<u32>::empty()
                        && q.nodes[k].parents.subset_of(g)) by {
                        if q.nodes[k].parents.subset_of(g) {
                            assert(q.nodes[k].parents =~= Set::<u32>::empty());
                        }
                    }
                }
                None
            },
            Some(n) => {
                proof {
                    lemma_nodes_view_remove(qm, id);
                    assert(n@ == q.nodes[id]);
                }
                // The parents forget the node as a child
                let parents = id_set_items(&n.parents);
                let mut i: usize = 0;
                while i < parents.len()
                    invariant
                        i <= parents@.len(),
                        ids_increasing(parents@),
                        parents@.to_set() == q.nodes[id].parents,
                        q.links_consistent(),
                        q.nodes.contains_key(id),
                        self@.nodes.dom() == q.nodes.dom().remove(id),
                        self@.total_size == q.total_size,
                        self@.plan_meta == q.plan_meta,
                        forall|k: u32| #[trigger] self@.nodes.contains_key(k) ==> self@.nodes[k] == (if parents@.take(i as int).to_set().contains(k) {
                            NodeView { children: q.nodes[k].children.remove(id), ..q.nodes[k] }
                        } else {
                            q.nodes[k]
                        }),
                    decreases parents@.len() - i,
                {
                    proof {
                        lemma_u32_ordered();
                        lemma_take_one_more(parents@, i as int);
                    }
                    let pid = parents[i];
                    let ghost before = self.nodes@;
                    let ghost sv = self@;
                    proof {
                        assert(!parents@.take(i as int).to_set().contains(pid)) by {
                            if parents@.take(i as int).to_set().contains(pid) {
                                assert(parents@.take(i as int).contains(pid));
                                let t = choose|t: int| 0 <= t < parents@.take(i as int).len() && parents@.take(i as int)[t] == pid;
                                assert(parents@.take(i as int)[t] == parents@[t]);
                                assert(parents@[t] < parents@[i as int]);
                            }
                        }
                    }
                    match map_get_mut(&mut self.nodes, pid) {
                        Some(pn) => {
                            pn.children.remove(&id);
                            proof {
                                lemma_nodes_view_insert(before, pid, self.nodes@[pid]);
                            }
                        },
                        None => {
                            proof {
                                lemma_nodes_view_dom(before);
                            }
                        },
                    }
                    proof {
                        lemma_nodes_view_dom(self.nodes@);
                        lemma_nodes_view_dom(before);
                        assert forall|k: u32| #[trigger] self@.nodes.contains_key(k) implies self@.nodes[k] == (if parents@.take(i + 1).to_set().contains(k) {
                            NodeView { children: q.nodes[k].children.remove(id), ..q.nodes[k] }
                        } else {
                            q.nodes[k]
                        }) by {
                            assert(sv.nodes.contains_key(k));
                        }
                    }
                    i = i + 1;
                }
                proof {
                    assert(parents@.take(parents@.len() as int) == parents@);
                    assert(q.nodes.dom().difference(self@.nodes.dom()) =~= set![id]);
                    assert forall|k: u32| #[trigger] self@.nodes.contains_key(k) implies self@.nodes[k] == (NodeView {
                        children: q.nodes[k].children.remove(id),
                        ..q.nodes[k]
                    }) by {
                        assert(q.nodes.contains_key(k));
                        if !parents@.to_set().contains(k) {
                            assert(!q.nodes[k].children.contains(id));
                            assert(q.nodes[k].children.remove(id) =~= q.nodes[k].children);
                        }
                    }
                }
                // The children forget the node as a parent, and those left without parents go
                let children = id_set_items(&n.children);
                proof {
                    let g = q.nodes.dom().difference(self@.nodes.dom());
                    assert(g =~= set![id]);
                    assert(children@.take(0).to_set() =~= Set::<u32>::empty());
                    assert forall|k: u32| #[trigger] self@.nodes.contains_key(k) implies self@.nodes[k] == (NodeView {
                        parents: q.nodes[k].parents.difference(
                            if children@.take(0).to_set().contains(k) || !q.nodes[id].children.contains(k) { g } else { g.remove(id) },
                        ),
                        children: q.nodes[k].children.difference(g),
                        ..q.nodes[k]
                    }) by {
                        assert(q.nodes.contains_key(k));
                        assert(q.nodes[k].children.difference(g) =~= q.nodes[k].children.remove(id));
                        if !q.nodes[id].children.contains(k) {
                            assert(!q.nodes[k].parents.contains(id));
                            assert(q.nodes[k].parents.difference(g) =~= q.nodes[k].parents);
                        } else {
                            assert(g.remove(id) =~= Set::<u32>::empty());
                            assert(q.nodes[k].parents.difference(g.remove(id)) =~= q.nodes[k].parents);
                        }
                    }
                    assert forall|k: u32| #[trigger] self@.nodes.contains_key(k) && (children@.take(0).to_set().contains(k) || !q.nodes[id].children.contains(k))
                        implies !(q.nodes[k].parents != Set::<u32>::empty() && q.nodes[k].parents.subset_of(g)) by {
                        assert(q.nodes.contains_key(k));
                        if q.nodes[k].parents != Set::<u32>::empty() && q.nodes[k].parents.subset_of(g) {
                            let x = q.nodes[k].parents.choose();
                            assert(q.nodes[k].parents.contains(x)) by {
                                assert(!(q.nodes[k].parents =~= Set::<u32>::empty()));
                            }
                            assert(x == id);
                            assert(q.nodes[id].children.contains(k));
                        }
                    }
                }
                let mut j: usize = 0;
                while j < children.len()
                    invariant
                        j <= children@.len(),
                        children@.to_set() == q.nodes[id].children,
                        q.nodes.dom().finite(),
                        q.links_consistent(),
                        q.nodes.contains_key(id),
                        removal_progress(q, id, self@, children@.take(j as int).to_set()),
                        ids_increasing(children@),
                        old(self)@ == q,
                    decreases children@.len() - j,
                {
                    proof {
                        lemma_u32_ordered();
                        lemma_take_one_more(children@, j as int);
                        lemma_nodes_view_dom(self.nodes@);
                    }
                    let c = children[j];
                    let ghost s0 = self@;
                    let ghost before = self.nodes@;
                    let ghost done = children@.take(j as int).to_set();
                    proof {
                        assert(!done.contains(c)) by {
                            if done.contains(c) {
                                assert(children@.take(j as int).contains(c));
                                let t = choose|t: int| 0 <= t < children@.take(j as int).len() && children@.take(j as int)[t] == c;
                                assert(children@.take(j as int)[t] == children@[t]);
                                assert(children@[t] < children@[j as int]);
                            }
                        }
                        assert(children@.to_set().contains(c)) by {
                            assert(children@.contains(children@[j as int]));
                        }
                        assert(removal_progress(q, id, s0, done));
                    }
                    let mut orphan = false;
                    match map_get_mut(&mut self.nodes, c) {
                        Some(cn) => {
                            cn.parents.remove(&id);
                            orphan = cn.parents.is_empty();
                        },
                        None => {},
                    }
                    let ghost s1 = self@;
                    proof {
                        lemma_nodes_view_dom(self.nodes@);
                        lemma_nodes_view_dom(before);
                        if before.contains_key(c) {
                            lemma_nodes_view_insert(before, c, self.nodes@[c]);
                            assert(s1.nodes[c].parents == s0.nodes[c].parents.remove(id));
                        } else {
                            assert(self.nodes@ =~= before);
                        }
                        assert(s1.links_consistent()) by {
                            if s0.nodes.contains_key(c) {
                                assert forall|a: u32, b: u32| s1.nodes.contains_key(a) && s1.nodes.contains_key(b) implies (#[trigger] s1.nodes[a].children.contains(b)
                                    <==> #[trigger] s1.nodes[b].parents.contains(a)) by {
                                    assert(s0.nodes[a].children.contains(b) <==> s0.nodes[b].parents.contains(a));
                                }
                            }
                        }
                    }
                    if orphan {
                        proof {
                            assert(s1.nodes.dom().subset_of(q.nodes.dom().remove(id)));
                            vstd::set_lib::lemma_len_subset(s1.nodes.dom(), q.nodes.dom().remove(id));
                            assert(q.nodes.dom().remove(id).len() == q.nodes.dom().len() - 1);
                            assert(s1.nodes.dom().len() < q.nodes.dom().len());
                        }
                        let _ = self.remove_node(c);
                    }
                    proof {
                        lemma_nodes_view_dom(self.nodes@);
                        lemma_removal_step(q, id, s0, s1, self@, c, done, orphan);
                        assert(children@.take(j + 1).to_set() == done.insert(c));
                    }
                    j = j + 1;
                }
                proof {
                    assert(children@.take(children@.len() as int) == children@);
                    let g = q.nodes.dom().difference(self@.nodes.dom());
                    assert forall|k: u32| #[trigger] self@.nodes.contains_key(k) implies self@.nodes[k] == unlinked(q.nodes[k], g) by {
                        if q.nodes[id].children.contains(k) {
                            assert(children@.take(children@.len() as int).to_set().contains(k));
                        }
                    }
                    assert forall|k: u32| #[trigger] self@.nodes.contains_key(k) implies !(q.nodes[k].parents != Set::<u32>::empty()
                        && q.nodes[k].parents.subset_of(g)) by {
                        if q.nodes[id].children.contains(k) {
                            assert(children@.take(children@.len() as int).to_set().contains(k));
                        }
                    }
                }
                Some(n)
            },
        }
    }
}

impl LogicalPlanView {
    /// Every child of a node has a greater id than the node: the plan is a graph without cycles
    /// whose edges lead to greater ids, as appending operators in turn builds it.
    pub open spec fn children_above(self) -> bool {
        forall|k: u32, c: u32| #[trigger] self.nodes.contains_key(k) && #[trigger] self.nodes[k].children.contains(c) ==> k < c
    }
}

/// From node `curr`, with `layer` branches entered and not yet merged, follow the child of least
/// id: a node with more than one child enters a branch, a node with more than one parent merges
/// the innermost branch entered, or, where none is open, is the merge node sought. `None` where
/// the walk runs out of children or reaches an id that the plan lacks.
pub open spec fn merge_walk(p: LogicalPlanView, curr: u32, layer: int) -> Option<u32>
    decreases u32::MAX - curr,
{
    if !p.nodes.contains_key(curr) || p.nodes[curr].children == Set::<u32>::empty() {
        None
    } else {
        let next = least_id(p.nodes[curr].children);
        if !p.nodes.contains_key(next) || next <= curr {
            None
        } else {
            let n = p.nodes[next];
            let entered = if n.children.len() > 1 { layer + 1 } else { layer };
            if n.parents.len() > 1 {
                if entered > 0 {
                    merge_walk(p, next, entered - 1)
                } else {
                    Some(next)
                }
            } else {
                merge_walk(p, next, entered)
            }
        }
    }
}

impl LogicalPlan {
    /// The merge node that closes the branch opened at node `branch_id`: `None` where that
    /// node has at most one child or the walk along children of least id finds no merge node.
    pub fn get_merge_node(&self, branch_id: u32) -> (merge: Option<u32>)
        requires
            self@.nodes.contains_key(branch_id),
            self@.children_above(),
        ensures
            merge == (if self@.nodes[branch_id].children.len() > 1 { merge_walk(self@, branch_id, 0) } else { None }),
    {
        broadcast use vstd::std_specs::btree::group_btree_axioms;
        proof {
            lemma_u32_ordered();
        }
        let branch = self.nodes.get(&branch_id).unwrap();
        if branch.children.len() <= 1 {
            return None;
        }
        let mut layer: u64 = 0;
        let mut curr = branch_id;
        loop
            invariant
                self@.nodes.contains_key(curr),
                self@.nodes.contains_key(branch_id),
                self@.nodes[branch_id].children.len() > 1,
                self@.children_above(),
                branch_id <= curr,
                layer <= curr - branch_id,
                merge_walk(self@, curr, layer as int) == merge_walk(self@, branch_id, 0),
            decreases u32::MAX - curr,
        {
            proof {
                lemma_u32_ordered();
            }
            let ghost layer0 = layer;
            let node = self.get_node(curr).unwrap();
            let first = node.get_first_child();
            match first {
                None => {
                    return None;
                },
                Some(next) => {
                    proof {
                        assert(self@.nodes[curr].children.contains(next));
                        assert(curr < next);
                    }
                    match self.get_node(next) {
                        None => {
                            return None;
                        },
                        Some(n) => {
                            if n.children.len() > 1 {
                                layer = layer + 1;
                            }
                            if n.parents.len() > 1 {
                                if layer > 0 {
                                    layer = layer - 1;
                                } else {
                                    proof {
                                        assert(self@.nodes[curr].children != Set::<u32>::empty()) by {
                                            assert(self@.nodes[curr].children.contains(next));
                                        }
                                        assert(n@ == self@.nodes[next]);
                                        assert(layer0 == 0 && !(n@.children.len() > 1));
                                        assert(merge_walk(self@, curr, layer0 as int) == Some(next));
                                    }
                                    return Some(next);
                                }
                            }
                            curr = next;
                        },
                    }
                },
            }
        }
    }
}

/// A finite nonempty set of ids has a least member.
pub proof fn lemma_least_member(s: Set<u32>)
    requires
        s.finite(),
        s.len() > 0,
    ensures
        s.contains(least_id(s)),
        forall|x: u32| #[trigger] s.contains(x) ==> least_id(s) <= x,
    decreases s.len(),
{
    let x = s.choose();
    assert(s.contains(x)) by {
        if !s.contains(x) {
            assert(s =~= Set::<u32>::empty());
        }
    }
    let rest = s.remove(x);
    if rest.len() == 0 {
        assert(rest =~= Set::<u32>::empty());
        assert forall|y: u32| #[trigger] s.contains(y) implies x <= y by {
            if y != x {
                assert(rest.contains(y));
            }
        }
        assert(s.contains(x) && forall|y: u32| #[trigger] s.contains(y) ==> x <= y);
    } else {
        lemma_least_member(rest);
        let m = least_id(rest);
        let w = if x < m { x } else { m };
        assert forall|y: u32| #[trigger] s.contains(y) implies w <= y by {
            if y != x {
                assert(rest.contains(y));
            }
        }
        assert(s.contains(w) && forall|y: u32| #[trigger] s.contains(y) ==> w <= y);
    }
}

/// The walk to a merge node only goes to nodes of greater id in the plan.
pub proof fn lemma_merge_walk_above(p: LogicalPlanView, curr: u32, layer: int)
    requires
        merge_walk(p, curr, layer) is Some,
    ensures
        merge_walk(p, curr, layer)->0 > curr,
        p.nodes.contains_key(merge_walk(p, curr, layer)->0),
    decreases u32::MAX - curr,
{
    let next = least_id(p.nodes[curr].children);
    let n = p.nodes[next];
    let entered = if n.children.len() > 1 { layer + 1 } else { layer };
    if n.parents.len() > 1 {
        if entered > 0 {
            lemma_merge_walk_above(p, next, entered - 1);
        }
    } else {
        lemma_merge_walk_above(p, next, entered);
    }
}

/// A copy of a node without its links, as a subplan holds it.
pub open spec fn detached(v: NodeView) -> NodeView {
    NodeView { parents: Set::empty(), children: Set::empty(), ..v }
}

/// The plan of the one node `v`.
pub open spec fn root_plan(v: NodeView) -> LogicalPlanView {
    LogicalPlanView { nodes: map![v.id => v], total_size: 1, plan_meta: empty_plan_meta() }
}

/// The plan after appending `n` under `ps`, or as it was where a parent is missing.
pub open spec fn appended(plan: LogicalPlanView, n: NodeView, ps: Set<u32>) -> LogicalPlanView {
    if parents_present(plan, ps) {
        node_appended(plan, n, ps)
    } else {
        plan
    }
}

/// The plan after appending the branch plans `sps` below the node stored under `node_id`.
pub open spec fn branches_added(plan: LogicalPlanView, node_id: u32, sps: Seq<LogicalPlanView>) -> LogicalPlanView {
    if plan.nodes[node_id].children != Set::<u32>::empty() {
        plan
    } else {
        LogicalPlanView {
            nodes: branches_appended(
                plan.nodes,
                true,
                node_id,
                plan.nodes[node_id].id,
                sps.map_values(|x: LogicalPlanView| x.nodes),
            ).0,
            ..plan
        }
    }
}

/// The subplan of `p` from node `from` (included) to node `to` (excluded): `None` where they
/// are the same or `from` is missing; otherwise the walk from `from`.
pub open spec fn subplan_spec(p: LogicalPlanView, from: u32, to: u32) -> Option<LogicalPlanView>
    decreases u32::MAX - from, 3int, 0int,
{
    if from == to || !p.nodes.contains_key(from) {
        None
    } else {
        subplan_walk(p, to, root_plan(detached(p.nodes[from])), from)
    }
}

/// The walk that builds a subplan, `plan` so far, from node `curr` on until it reaches `to`: a
/// node of one child goes on to that child, copying it into the subplan unless it is `to`; a
/// node of several children takes in the branch plans up to their merge node and goes on to
/// the merge node, copying it unless it is `to`. `None` where the walk runs out of children,
/// reaches a missing node, finds no merge node, or has not kept the branch node in the subplan.
pub open spec fn subplan_walk(p: LogicalPlanView, to: u32, plan: LogicalPlanView, curr: u32) -> Option<LogicalPlanView>
    decreases u32::MAX - curr, 2int, 0int,
{
    if curr == to {
        Some(plan)
    } else if !p.nodes.contains_key(curr) || p.nodes[curr].children == Set::<u32>::empty() {
        None
    } else if p.nodes[curr].children.len() == 1 {
        let next = least_id(p.nodes[curr].children);
        if !p.nodes.contains_key(next) || next <= curr {
            None
        } else {
            let plan1 = if next != to {
                appended(plan, detached(p.nodes[next]), set![p.nodes[curr].id])
            } else {
                plan
            };
            subplan_walk(p, to, plan1, next)
        }
    } else {
        let bp = branch_plans_spec(p, curr);
        match bp.0 {
            None => None,
            Some(m) => if !plan.nodes.contains_key(curr) || m <= curr || !p.nodes.contains_key(m) {
                None
            } else {
                let plan1 = branches_added(plan, curr, bp.1);
                let plan2 = if m != to {
                    appended(plan1, detached(p.nodes[m]), p.nodes[m].parents)
                } else {
                    plan1
                };
                subplan_walk(p, to, plan2, m)
            },
        }
    }
}

/// The merge node of the branch opened at node `branch`, and the subplans of its branches, from
/// each child (in order of id) to the merge node.
pub open spec fn branch_plans_spec(p: LogicalPlanView, branch: u32) -> (Option<u32>, Seq<LogicalPlanView>)
    decreases u32::MAX - branch, 1int, 0int,
{
    if !p.nodes.contains_key(branch) || !(p.nodes[branch].children.len() > 1) {
        (None, Seq::empty())
    } else {
        match merge_walk(p, branch, 0) {
            None => (None, Seq::empty()),
            Some(m) => (Some(m), branch_subplans(p, branch, m, p.nodes[branch].children)),
        }
    }
}

/// The subplan that the branch from child `c` of node `branch` contributes: the subplan from
/// `c` to the merge node `m`, where the plan holds `c` and it has one.
pub open spec fn branch_first(p: LogicalPlanView, branch: u32, m: u32, c: u32) -> Seq<LogicalPlanView>
    decreases u32::MAX - branch, 0int, 1int,
{
    if p.nodes.contains_key(c) && c > branch {
        match subplan_spec(p, c, m) {
            Some(sp) => seq![sp],
            None => Seq::empty(),
        }
    } else {
        Seq::empty()
    }
}

/// The subplans from each node of `cs` (in order of id) that the plan holds to the merge node
/// `m`, where there is one.
#[verifier::opaque]
pub open spec fn branch_subplans(p: LogicalPlanView, branch: u32, m: u32, cs: Set<u32>) -> Seq<LogicalPlanView>
    decreases u32::MAX - branch, 0int, cs.len() + 1,
{
    if !cs.finite() || cs.len() == 0 {
        Seq::empty()
    } else {
        let c = least_id(cs);
        proof {
            lemma_least_member(cs);
        }
        branch_first(p, branch, m, c) + branch_subplans(p, branch, m, cs.remove(c))
    }
}

/// The views of a list of plans.
pub open spec fn plans_view(plans: Seq<LogicalPlan>) -> Seq<LogicalPlanView> {
    plans.map_values(|sp: LogicalPlan| sp@)
}

impl LogicalPlanView {
    /// Every id of the plan leaves room for one more in a `usize`.
    pub open spec fn ids_fit(self) -> bool {
        forall|k: u32| #[trigger] self.nodes.contains_key(k) ==> (k as int) < usize::MAX
    }
}

/// A copy of a node without its links.
fn clone_node(node: &Node) -> (copy: Node)
    ensures
        copy@ == detached(node@),
{
    Node::new(node.id, node.opr.copy())
}

/// In an increasing sequence, the least of the members from position `i` on is the one at `i`,
/// and the members after it are the rest.
proof fn lemma_increasing_suffix(t: Seq<u32>, i: int)
    requires
        ids_increasing(t),
        0 <= i < t.len(),
    ensures
        t.subrange(i, t.len() as int).to_set().finite(),
        t.subrange(i, t.len() as int).to_set().len() > 0,
        least_id(t.subrange(i, t.len() as int).to_set()) == t[i],
        t.subrange(i, t.len() as int).to_set().remove(t[i]) == t.subrange(i + 1, t.len() as int).to_set(),
{
    let a = t.subrange(i, t.len() as int);
    let b = t.subrange(i + 1, t.len() as int);
    assert(a.to_set().contains(t[i])) by {
        assert(a[0] == t[i]);
    }
    vstd::seq_lib::seq_to_set_is_finite(a);
    assert(a.to_set().len() > 0) by {
        if a.to_set().len() == 0 {
            assert(a.to_set() =~= Set::<u32>::empty());
        }
    }
    lemma_least_member(a.to_set());
    assert forall|y: u32| #[trigger] a.to_set().contains(y) implies t[i] <= y by {
        assert(a.contains(y));
        let k = choose|k: int| 0 <= k < a.len() && a[k] == y;
        if k > 0 {
            assert(t[i] < t[i + k]);
        }
    }
    let m = least_id(a.to_set());
    assert(m <= t[i] && t[i] <= m);
    assert forall|y: u32| a.to_set().remove(t[i]).contains(y) <==> b.to_set().contains(y) by {
        if a.to_set().remove(t[i]).contains(y) {
            assert(a.contains(y));
            let k = choose|k: int| 0 <= k < a.len() && a[k] == y;
            assert(k != 0);
            assert(b[k - 1] == y);
            assert(b.contains(y));
        }
        if b.to_set().contains(y) {
            assert(b.contains(y));
            let k = choose|k: int| 0 <= k < b.len() && b[k] == y;
            assert(a[k + 1] == y);
            assert(a.contains(y));
            assert(t[i] < t[i + 1 + k]);
        }
    }
    assert(a.to_set().remove(t[i]) =~= b.to_set());
}

/// The branch subplans of a nonempty finite set of children: those of its least member, then
/// those of the rest.
proof fn lemma_branch_subplans_unfold(p: LogicalPlanView, branch: u32, m: u32, cs: Set<u32>)
    requires
        cs.finite(),
        cs.len() > 0,
    ensures
        branch_subplans(p, branch, m, cs) == branch_first(p, branch, m, least_id(cs)) + branch_subplans(
            p,
            branch,
            m,
            cs.remove(least_id(cs)),
        ),
{
    reveal(branch_subplans);
}

impl LogicalPlan {
    /// Adds to `plans` the subplan that the branch from child `c` of node `branch_id`
    /// contributes up to the merge node `m`.
    fn push_branch_plan(&self, branch_id: u32, m: u32, c: u32, plans: &mut Vec<LogicalPlan>)
        requires
            self@.ids_match(),
            self@.children_above(),
            self@.ids_fit(),
            branch_id < c,
        ensures
            plans_view(final(plans)@) == plans_view(old(plans)@) + branch_first(self@, branch_id, m, c),
        decreases u32::MAX - branch_id, 0int, 0int,
    {
        let ghost before = plans_view(plans@);
        if self.get_node(c).is_some() {
            match self.subplan(c, m) {
                Some(sp) => {
                    plans.push(sp);
                    proof {
                        assert(plans_view(plans@) =~= before + seq![plans@[plans@.len() - 1]@]);
                    }
                },
                None => {
                    proof {
                        assert(before + Seq::<LogicalPlanView>::empty() =~= before);
                    }
                },
            }
        } else {
            proof {
                assert(before + Seq::<LogicalPlanView>::empty() =~= before);
            }
        }
    }

    /// The merge node of the branch opened at node `branch_id`, and the subplans of its
    /// branches, from each child (in order of id) that the plan holds to the merge node; no
    /// merge node and no subplans where the node has at most one child or no merge node is found.
    pub fn get_branch_plans(&self, branch_id: u32) -> (branches: (Option<u32>, Vec<LogicalPlan>))
        requires
            self@.ids_match(),
            self@.children_above(),
            self@.ids_fit(),
        ensures
            branches.0 == branch_plans_spec(self@, branch_id).0,
            plans_view(branches.1@) == branch_plans_spec(self@, branch_id).1,
        decreases u32::MAX - branch_id, 1int, 0int,
    {
        let branch = match self.get_node(branch_id) {
            Some(b) => b,
            None => {
                proof {
                    assert(plans_view(Seq::<LogicalPlan>::empty()) =~= Seq::<LogicalPlanView>::empty());
                }
                return (None, Vec::new());
            },
        };
        if branch.children.len() <= 1 {
            proof {
                assert(plans_view(Seq::<LogicalPlan>::empty()) =~= Seq::<LogicalPlanView>::empty());
            }
            return (None, Vec::new());
        }
        let merge = self.get_merge_node(branch_id);
        match merge {
            None => {
                proof {
                    assert(plans_view(Seq::<LogicalPlan>::empty()) =~= Seq::<LogicalPlanView>::empty());
                }
                (None, Vec::new())
            },
            Some(m) => {
                let items = id_set_items(&branch.children);
                let ghost full = self@.nodes[branch_id].children;
                let mut plans: Vec<LogicalPlan> = Vec::new();
                proof {
                    assert(items@.subrange(0, items@.len() as int) == items@);
                    assert(plans_view(plans@) =~= Seq::<LogicalPlanView>::empty());
                    assert(plans_view(plans@) + branch_subplans(self@, branch_id, m, items@.subrange(0, items@.len() as int).to_set())
                        =~= branch_subplans(self@, branch_id, m, full));
                }
                let mut i: usize = 0;
                while i < items.len()
                    invariant
                        i <= items@.len(),
                        ids_increasing(items@),
                        items@.to_set() == full,
                        full == self@.nodes[branch_id].children,
                        self@.nodes.contains_key(branch_id),
                        self@.ids_match(),
                        self@.children_above(),
                        self@.ids_fit(),
                        plans_view(plans@) + branch_subplans(self@, branch_id, m, items@.subrange(i as int, items@.len() as int).to_set())
                            == branch_subplans(self@, branch_id, m, full),
                    decreases items@.len() - i,
                {
                    let c = items[i];
                    let ghost rest = items@.subrange(i as int, items@.len() as int).to_set();
                    let ghost next = items@.subrange(i + 1, items@.len() as int).to_set();
                    proof {
                        lemma_increasing_suffix(items@, i as int);
                        assert(items@.contains(items@[i as int]));
                        assert(full.contains(c));
                        assert(branch_id < c);
                        lemma_branch_subplans_unfold(self@, branch_id, m, rest);
                    }
                    let ghost before = plans_view(plans@);
                    self.push_branch_plan(branch_id, m, c, &mut plans);
                    proof {
                        assert(plans_view(plans@) + branch_subplans(self@, branch_id, m, next)
                            =~= before + branch_subplans(self@, branch_id, m, rest));
                    }
                    i = i + 1;
                }
                proof {
                    reveal(branch_subplans);
                    let e = items@.subrange(items@.len() as int, items@.len() as int);
                    assert(e.to_set() =~= Set::<u32>::empty());
                    assert(plans_view(plans@) =~= plans_view(plans@) + branch_subplans(self@, branch_id, m, e.to_set()));
                }
                (Some(m), plans)
            },
        }
    }

    /// The walk of `subplan` from node `curr` of one child: on to that child, copied into
    /// `plan` under `curr` unless it is `to_id`; `None` where the child is missing.
    #[verifier::rlimit(60)]
    fn subplan_single_step(&self, plan: &mut LogicalPlan, curr: u32, to_id: u32) -> (next: Option<u32>)
        requires
            self@.ids_match(),
            self@.children_above(),
            self@.ids_fit(),
            curr != to_id,
            self@.nodes.contains_key(curr),
            self@.nodes[curr].children.len() == 1,
            old(plan)@.plan_meta.wf(),
        ensures
            match next {
                Some(n) => {
                    &&& curr < n
                    &&& self@.nodes.contains_key(n)
                    &&& final(plan)@.plan_meta.wf()
                    &&& subplan_walk(self@, to_id, final(plan)@, n) == subplan_walk(self@, to_id, old(plan)@, curr)
                },
                None => subplan_walk(self@, to_id, old(plan)@, curr) is None,
            },
    {
        let ghost p0 = plan@;
        let node = self.get_node(curr).unwrap();
        proof {
            if self@.nodes[curr].children == Set::<u32>::empty() {
                assert(self@.nodes[curr].children.len() == 0);
            }
        }
        let next = node.get_first_child().unwrap();
        proof {
            assert(self@.nodes[curr].children.contains(next));
            assert(curr < next);
        }
        match self.get_node(next) {
            Some(next_node) => {
                if next != to_id {
                    let mut parents: Vec<u32> = Vec::new();
                    parents.push(node.id);
                    proof {
                        assert(parents@.to_set() =~= set![self@.nodes[curr].id]) by {
                            assert(parents@[0] == node.id);
                            assert forall|y: u32| parents@.to_set().contains(y) <==> y == node.id by {
                                if parents@.to_set().contains(y) {
                                    assert(parents@.contains(y));
                                }
                                if y == node.id {
                                    assert(parents@.contains(parents@[0]));
                                }
                            }
                        }
                    }
                    let _ = plan.append_node(clone_node(next_node), parents);
                }
                Some(next)
            },
            None => None,
        }
    }

    /// The walk of `subplan` from node `curr` of several children: takes in the branch plans
    /// below `curr` and goes on to their merge node, copied into `plan` unless it is `to_id`;
    /// `None` where no merge node is found or `plan` does not hold `curr`.
    fn subplan_branch_step(&self, plan: &mut LogicalPlan, curr: u32, to_id: u32) -> (next: Option<u32>)
        requires
            self@.ids_match(),
            self@.children_above(),
            self@.ids_fit(),
            curr != to_id,
            self@.nodes.contains_key(curr),
            self@.nodes[curr].children != Set::<u32>::empty(),
            self@.nodes[curr].children.len() != 1,
            old(plan)@.plan_meta.wf(),
        ensures
            match next {
                Some(n) => {
                    &&& curr < n
                    &&& self@.nodes.contains_key(n)
                    &&& final(plan)@.plan_meta.wf()
                    &&& subplan_walk(self@, to_id, final(plan)@, n) == subplan_walk(self@, to_id, old(plan)@, curr)
                },
                None => subplan_walk(self@, to_id, old(plan)@, curr) is None,
            },
        decreases u32::MAX - curr, 2int, 0int,
    {
        let (merge_opt, subplans) = self.get_branch_plans(curr);
        match merge_opt {
            Some(m) => {
                proof {
                    lemma_merge_walk_above(self@, curr, 0);
                }
                if plan.get_node(curr).is_none() {
                    return None;
                }
                proof {
                    assert(plans_nodes(subplans@) =~= plans_view(subplans@).map_values(|x: LogicalPlanView| x.nodes));
                }
                plan.append_branch_plans(curr, subplans);
                if m != to_id {
                    let merge_node = self.get_node(m).unwrap();
                    let parents = id_set_items(&merge_node.parents);
                    let _ = plan.append_node(clone_node(merge_node), parents);
                }
                Some(m)
            },
            None => None,
        }
    }

    /// The subplan from node `from_id` (included) to node `to_id` (excluded): every node met
    /// when following the plan from one to the other, copied without the links that lead out
    /// of the subplan. A node of several children brings in all its branches up to their merge
    /// node. `None` where the two are the same, the walk does not reach `to_id`, no merge node is
    /// found for a branch, or a branch node could not be kept in the subplan.
    #[verifier::rlimit(60)]
    pub fn subplan(&self, from_id: u32, to_id: u32) -> (plan: Option<LogicalPlan>)
        requires
            self@.ids_match(),
            self@.children_above(),
            self@.ids_fit(),
        ensures
            match plan {
                Some(sp) => subplan_spec(self@, from_id, to_id) == Some(sp@),
                None => subplan_spec(self@, from_id, to_id) is None,
            },
        decreases u32::MAX - from_id, 3int, 0int,
    {
        if from_id == to_id {
            return None;
        }
        let from = match self.get_node(from_id) {
            Some(n) => n,
            None => {
                return None;
            },
        };
        let mut plan = LogicalPlan::with_root(clone_node(from));
        let mut curr = from_id;
        proof {
            assert(plan@ == root_plan(detached(self@.nodes[from_id]))) by {
                assert(plan@.nodes =~= map![from_id => detached(self@.nodes[from_id])]);
            }
        }
        while curr != to_id
            invariant
                self@.ids_match(),
                self@.children_above(),
                self@.ids_fit(),
                from_id <= curr,
                self@.nodes.contains_key(curr),
                plan@.plan_meta.wf(),
                subplan_walk(self@, to_id, plan@, curr) == subplan_spec(self@, from_id, to_id),
            decreases u32::MAX - curr,
        {
            let node = self.get_node(curr).unwrap();
            let step = if node.children.is_empty() {
                None
            } else if node.children.len() == 1 {
                self.subplan_single_step(&mut plan, curr, to_id)
            } else {
                self.subplan_branch_step(&mut plan, curr, to_id)
            };
            match step {
                Some(n) => {
                    curr = n;
                },
                None => {
                    return None;
                },
            }
        }
        Some(plan)
    }
}

/// Every node of `nodes` is stored under a key from `lo` up to, and not including, `hi`.
pub open spec fn keys_in(nodes: Map<u32, NodeView>, lo: int, hi: int) -> bool {
    forall|k: u32| #[trigger] nodes.contains_key(k) ==> lo <= k < hi
}

/// Appending branch plans keeps every node and adds only nodes of the branch plans.
proof fn lemma_branches_appended_keys(
    nodes: Map<u32, NodeView>,
    attached: bool,
    node_id: u32,
    nid: u32,
    sps: Seq<Map<u32, NodeView>>,
    lo: int,
    hi: int,
)
    requires
        nodes.contains_key(node_id),
        forall|i: int| 0 <= i < sps.len() ==> (#[trigger] sps[i]).dom().finite() && keys_in(sps[i], lo, hi),
    ensures
        forall|k: u32| #[trigger] nodes.contains_key(k) ==> branches_appended(nodes, attached, node_id, nid, sps).0.contains_key(k),
        forall|k: u32| #[trigger] branches_appended(nodes, attached, node_id, nid, sps).0.contains_key(k) ==> nodes.contains_key(k) || lo <= k < hi,
    decreases sps.len(),
{
    if sps.len() > 0 {
        let rest = sps.drop_last();
        assert forall|i: int| 0 <= i < rest.len() implies (#[trigger] rest[i]).dom().finite() && keys_in(rest[i], lo, hi) by {
            assert(rest[i] == sps[i]);
        }
        lemma_branches_appended_keys(nodes, attached, node_id, nid, rest, lo, hi);
        let prev = branches_appended(nodes, attached, node_id, nid, rest);
        let last = sps.last();
        assert(keys_in(sps[sps.len() - 1], lo, hi) && sps[sps.len() - 1].dom().finite());
        if last.dom() != Set::<u32>::empty() {
            let d = last.dom();
            assert(d.len() > 0) by {
                if d.len() == 0 {
                    assert(d =~= Set::<u32>::empty());
                }
            }
            lemma_least_member(d);
            let res = branches_appended(nodes, attached, node_id, nid, sps).0;
            assert forall|k: u32| #[trigger] res.contains_key(k) implies nodes.contains_key(k) || lo <= k < hi by {
                if !prev.0.contains_key(k) && k != node_id && k != least_id(d) {
                    assert(last.contains_key(k));
                }
            }
        }
    }
}

/// A subplan holds the node it starts from, and otherwise only nodes stored under keys from
/// that node up to, and not including, the node it ends at.
pub proof fn lemma_subplan_between(p: LogicalPlanView, from: u32, to: u32)
    requires
        p.ids_match(),
        p.children_above(),
    ensures
        subplan_spec(p, from, to) matches Some(sp) ==> sp.nodes.contains_key(from) && keys_in(sp.nodes, from as int, to as int),
    decreases u32::MAX - from, 3int, 0int,
{
    if from != to && p.nodes.contains_key(from) {
        let plan0 = root_plan(detached(p.nodes[from]));
        assert(plan0.nodes.contains_key(from));
        lemma_walk_between(p, to, plan0, from, from);
    }
}

/// A walk from node `curr` that has gathered nodes of keys from `from` up to `curr`, without
/// `to` unless `to` comes before `curr`, ends with a subplan that holds `from` and only keys
/// from `from` up to, and not including, `to`.
proof fn lemma_walk_between(p: LogicalPlanView, to: u32, plan: LogicalPlanView, curr: u32, from: u32)
    requires
        p.ids_match(),
        p.children_above(),
        plan.nodes.contains_key(from),
        keys_in(plan.nodes, from as int, curr + 1),
        !plan.nodes.contains_key(to) || to < curr,
    ensures
        subplan_walk(p, to, plan, curr) matches Some(sp) ==> sp.nodes.contains_key(from) && keys_in(sp.nodes, from as int, to as int),
    decreases u32::MAX - curr, 2int, 0int,
{
    if curr == to {
    } else if !p.nodes.contains_key(curr) || p.nodes[curr].children == Set::<u32>::empty() {
    } else if p.nodes[curr].children.len() == 1 {
        let next = least_id(p.nodes[curr].children);
        if p.nodes.contains_key(next) && next > curr {
            let plan1 = if next != to {
                appended(plan, detached(p.nodes[next]), set![p.nodes[curr].id])
            } else {
                plan
            };
            assert(plan1.nodes.contains_key(from));
            assert(keys_in(plan1.nodes, from as int, next + 1));
            lemma_walk_between(p, to, plan1, next, from);
        }
    } else {
        let bp = branch_plans_spec(p, curr);
        lemma_branch_between(p, curr);
        match bp.0 {
            None => {},
            Some(m) => {
                if plan.nodes.contains_key(curr) && m > curr && p.nodes.contains_key(m) {
                    let plan1 = branches_added(plan, curr, bp.1);
                    let sps = bp.1.map_values(|x: LogicalPlanView| x.nodes);
                    assert forall|i: int| 0 <= i < sps.len() implies (#[trigger] sps[i]).dom().finite() && keys_in(sps[i], curr + 1, m as int) by {
                        assert(sps[i] == bp.1[i].nodes);
                    }
                    lemma_branches_appended_keys(plan.nodes, true, curr, plan.nodes[curr].id, sps, curr + 1, m as int);
                    assert(plan1.nodes.contains_key(from));
                    assert(keys_in(plan1.nodes, from as int, m as int));
                    let plan2 = if m != to {
                        appended(plan1, detached(p.nodes[m]), p.nodes[m].parents)
                    } else {
                        plan1
                    };
                    assert(plan2.nodes.contains_key(from));
                    assert(keys_in(plan2.nodes, from as int, m + 1));
                    lemma_walk_between(p, to, plan2, m, from);
                }
            },
        }
    }
}

/// The branch plans of node `b` hold only nodes stored under keys between `b` and its merge
/// node, both excluded.
pub proof fn lemma_branch_between(p: LogicalPlanView, b: u32)
    requires
        p.ids_match(),
        p.children_above(),
    ensures
        branch_plans_spec(p, b).0 matches Some(m) ==> forall|i: int|
            0 <= i < branch_plans_spec(p, b).1.len() ==> (#[trigger] branch_plans_spec(p, b).1[i]).nodes.dom().finite()
                && keys_in(branch_plans_spec(p, b).1[i].nodes, b + 1, m as int),
    decreases u32::MAX - b, 1int, 0int,
{
    if p.nodes.contains_key(b) && p.nodes[b].children.len() > 1 {
        match merge_walk(p, b, 0) {
            None => {},
            Some(m) => {
                let cs = p.nodes[b].children;
                lemma_branch_subplans_between(p, b, m, cs);
                let bp = branch_plans_spec(p, b);
                assert(bp.1 == branch_subplans(p, b, m, cs)) by {
                    reveal(branch_subplans);
                }
                assert forall|i: int| 0 <= i < bp.1.len() implies (#[trigger] bp.1[i]).nodes.dom().finite()
                    && keys_in(bp.1[i].nodes, b + 1, m as int) by {
                    assert(bp.1[i] == branch_subplans(p, b, m, cs)[i]);
                }
            },
        }
    }
}

/// The subplans of the branches from the children of `cs` hold only nodes of keys between
/// `b` and the merge node `m`.
proof fn lemma_branch_subplans_between(p: LogicalPlanView, b: u32, m: u32, cs: Set<u32>)
    requires
        p.ids_match(),
        p.children_above(),
    ensures
        forall|i: int|
            0 <= i < branch_subplans(p, b, m, cs).len() ==> (#[trigger] branch_subplans(p, b, m, cs)[i]).nodes.dom().finite()
                && keys_in(branch_subplans(p, b, m, cs)[i].nodes, b + 1, m as int),
    decreases u32::MAX - b, 0int, cs.len() + 1,
{
    reveal(branch_subplans);
    if cs.finite() && cs.len() > 0 {
        let c = least_id(cs);
        lemma_least_member(cs);
        lemma_branch_first_between(p, b, m, c);
        lemma_branch_subplans_between(p, b, m, cs.remove(c));
        let first = branch_first(p, b, m, c);
        let rest = branch_subplans(p, b, m, cs.remove(c));
        assert(branch_subplans(p, b, m, cs) == first + rest);
        assert forall|i: int| 0 <= i < (first + rest).len() implies (#[trigger] (first + rest)[i]).nodes.dom().finite()
            && keys_in((first + rest)[i].nodes, b + 1, m as int) by {
            if i < first.len() {
                assert((first + rest)[i] == first[i]);
            } else {
                assert((first + rest)[i] == rest[i - first.len()]);
            }
        }
    }
}

/// The subplan of the branch from child `c` of `b` holds only nodes of keys between `b` and
/// the merge node `m`.
proof fn lemma_branch_first_between(p: LogicalPlanView, b: u32, m: u32, c: u32)
    requires
        p.ids_match(),
        p.children_above(),
    ensures
        forall|i: int|
            0 <= i < branch_first(p, b, m, c).len() ==> (#[trigger] branch_first(p, b, m, c)[i]).nodes.dom().finite()
                && keys_in(branch_first(p, b, m, c)[i].nodes, b + 1, m as int),
    decreases u32::MAX - b, 0int, 1int,
{
    if p.nodes.contains_key(c) && c > b {
        lemma_subplan_between(p, c, m);
        match subplan_spec(p, c, m) {
            Some(sp) => {
                assert(branch_first(p, b, m, c) == seq![sp]);
                lemma_keys_in_finite(sp.nodes, c as int, m as int);
            },
            None => {},
        }
    }
}

/// A map whose keys lie in a range of integers has finitely many keys.
proof fn lemma_keys_in_finite(nodes: Map<u32, NodeView>, lo: int, hi: int)
    requires
        keys_in(nodes, lo, hi),
    ensures
        nodes.dom().finite(),
{
    if lo <= hi {
        let ints = vstd::set_lib::set_int_range(lo, hi);
        vstd::set_lib::lemma_int_range(lo, hi);
        let r = ints.map(|k: int| k as u32);
        ints.lemma_map_finite(|k: int| k as u32);
        assert forall|k: u32| nodes.dom().contains(k) implies r.contains(k) by {
            assert(ints.contains(k as int));
        }
        vstd::set_lib::lemma_len_subset(nodes.dom(), r);
    } else {
        assert(nodes.dom() =~= Set::<u32>::empty());
    }
}
} // verus!
