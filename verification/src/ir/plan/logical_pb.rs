//! Logical plans as plan messages carry them: a list of nodes, each naming its children by
//! their positions in the list.
use std::collections::BTreeMap;
use vstd::prelude::*;

use crate::ir::catalogue::collections::{lemma_sorted_ints_is, map_get_mut, sorted_ints, strictly_increasing};
use crate::ir::plan::id_sets::{id_map_keys, id_set_items, ids_increasing, lemma_ids_sorted_unique, lemma_u32_ordered, sorted_ids};
use crate::ir::plan::logical::{lemma_nodes_view_dom, lemma_nodes_view_insert, nodes_view, LogicalPlan, LogicalPlanView, Node, NodeView, Operator};
use crate::ir::plan::meta::{empty_plan_meta, opt_ref_view, PlanMeta};

verus! {

/// A node as a plan message holds it: its operator, where one is given, and the positions of
/// its children in the message's list of nodes.
pub struct NodePb {
    pub opr: Option<Operator>,
    pub children: Vec<i32>,
}

/// A plan message: its nodes, each at the position that becomes its id.
pub struct LogicalPlanPb {
    pub nodes: Vec<NodePb>,
}

/// Why a plan message cannot be read as a plan.
#[derive(Debug, PartialEq, Eq, Structural)]
pub enum ParsePbError {
    /// A node gives no operator.
    MissingOperator,
    /// A node names a child outside the list of nodes.
    ChildOutOfIndex,
}

/// Every node of the message gives an operator.
pub open spec fn pb_oprs_given(nodes: Seq<NodePb>) -> bool {
    forall|i: int| 0 <= i < nodes.len() ==> (#[trigger] nodes[i]).opr is Some
}

/// Every child that a node of the message names is in the list of nodes.
pub open spec fn pb_children_in_range(nodes: Seq<NodePb>) -> bool {
    forall|i: int, t: int|
        0 <= i < nodes.len() && 0 <= t < nodes[i].children@.len() ==> 0 <= #[trigger] nodes[i].children@[t] < nodes.len()
}

/// The children of node `j` that are linked once the children of the nodes before node `i`,
/// and the first `m` children of node `i`, are.
pub open spec fn pb_links(nodes: Seq<NodePb>, i: int, m: int, j: int) -> Seq<i32> {
    if j < i {
        nodes[j].children@
    } else if j == i {
        nodes[j].children@.take(m)
    } else {
        Seq::empty()
    }
}

/// The nodes of the message, each under its position, with the links made once the children
/// of the nodes before node `i`, and the first `m` children of node `i`, are linked: a child
/// gains its node as a parent.
pub open spec fn pb_linked(nodes: Seq<NodePb>, i: int, m: int) -> Map<u32, NodeView> {
    Map::new(
        |k: u32| k < nodes.len(),
        |k: u32|
            NodeView {
                id: k,
                kind: nodes[k as int].opr->0.kind,
                alias: opt_ref_view(&nodes[k as int].opr->0.alias),
                head_tag: opt_ref_view(&nodes[k as int].opr->0.head_tag),
                parents: Set::new(|j: u32| j < nodes.len() && pb_links(nodes, i, m, j as int).contains(k as i32)),
                children: Set::new(|c: u32| c < nodes.len() && pb_links(nodes, i, m, k as int).contains(c as i32)),
            },
    )
}

/// The plan that a message describes: node `k` for the node at position `k`, linked to the
/// children it names and to the nodes that name it, the total size the number of nodes, and
/// empty tag data.
pub open spec fn plan_of_pb(nodes: Seq<NodePb>) -> LogicalPlanView {
    LogicalPlanView { nodes: pb_linked(nodes, nodes.len() as int, 0), total_size: nodes.len() as usize, plan_meta: empty_plan_meta() }
}

/// Linking one more child of node `i` links only that child, and only to node `i`.
proof fn lemma_pb_links_step(nodes: Seq<NodePb>, i: int, m: int, j: int, x: i32)
    requires
        0 <= i < nodes.len(),
        0 <= m < nodes[i].children@.len(),
    ensures
        pb_links(nodes, i, m + 1, j).contains(x) <==> (pb_links(nodes, i, m, j).contains(x) || (j == i && x == nodes[i].children@[m])),
{
    if j == i {
        let ch = nodes[i].children@;
        if ch.take(m + 1).contains(x) {
            let t = choose|t: int| 0 <= t < m + 1 && #[trigger] ch.take(m + 1)[t] == x;
            if t < m {
                assert(ch.take(m)[t] == x);
            }
        }
        if ch.take(m).contains(x) {
            let t = choose|t: int| 0 <= t < m && #[trigger] ch.take(m)[t] == x;
            assert(ch.take(m + 1)[t] == x);
        }
        if x == ch[m] {
            assert(ch.take(m + 1)[m] == x);
        }
    }
}

/// Linking one more child of node `i` adds it to the children of node `i`, and node `i` to
/// its parents.
proof fn lemma_pb_link_step(nodes: Seq<NodePb>, i: int, m: int)
    requires
        0 <= i < nodes.len(),
        0 <= m < nodes[i].children@.len(),
        0 <= nodes[i].children@[m] < nodes.len(),
        nodes.len() <= i32::MAX,
    ensures
        ({
            let c = nodes[i].children@[m] as u32;
            let old_map = pb_linked(nodes, i, m);
            let with_child = old_map.insert(i as u32, NodeView { children: old_map[i as u32].children.insert(c), ..old_map[i as u32] });
            with_child.insert(c, NodeView { parents: with_child[c].parents.insert(i as u32), ..with_child[c] })
                == pb_linked(nodes, i, m + 1)
        }),
{
    let c = nodes[i].children@[m] as u32;
    let old_map = pb_linked(nodes, i, m);
    let with_child = old_map.insert(i as u32, NodeView { children: old_map[i as u32].children.insert(c), ..old_map[i as u32] });
    let upd = with_child.insert(c, NodeView { parents: with_child[c].parents.insert(i as u32), ..with_child[c] });
    let new_map = pb_linked(nodes, i, m + 1);
    assert(upd.dom() =~= new_map.dom());
    assert forall|k: u32| #[trigger] new_map.contains_key(k) implies upd[k] == new_map[k] by {
        assert(upd[k].parents =~= new_map[k].parents) by {
            assert forall|j: u32| upd[k].parents.contains(j) <==> new_map[k].parents.contains(j) by {
                lemma_pb_links_step(nodes, i, m, j as int, k as i32);
            }
        }
        assert(upd[k].children =~= new_map[k].children) by {
            assert forall|x: u32| upd[k].children.contains(x) <==> new_map[k].children.contains(x) by {
                if x < nodes.len() {
                    lemma_pb_links_step(nodes, i, m, k as int, x as i32);
                }
            }
        }
    }
    assert(upd =~= new_map);
}

/// Linking every child of node `i` is linking the nodes up to it.
proof fn lemma_pb_link_next(nodes: Seq<NodePb>, i: int)
    requires
        0 <= i < nodes.len(),
    ensures
        pb_linked(nodes, i, nodes[i].children@.len() as int) == pb_linked(nodes, i + 1, 0),
{
    let ch = nodes[i].children@;
    assert(ch.take(ch.len() as int) == ch);
    assert forall|j: int| pb_links(nodes, i, ch.len() as int, j) == pb_links(nodes, i + 1, 0, j) by {
        if j == i + 1 {
            assert(nodes[j].children@.take(0) =~= Seq::<i32>::empty());
        }
    }
    let a = pb_linked(nodes, i, ch.len() as int);
    let b = pb_linked(nodes, i + 1, 0);
    assert(a.dom() =~= b.dom());
    assert forall|k: u32| #[trigger] b.contains_key(k) implies a[k] == b[k] by {
        assert forall|j: u32| a[k].parents.contains(j) <==> b[k].parents.contains(j) by {
            assert(pb_links(nodes, i, ch.len() as int, j as int) == pb_links(nodes, i + 1, 0, j as int));
        }
        assert(pb_links(nodes, i, ch.len() as int, k as int) == pb_links(nodes, i + 1, 0, k as int));
        assert(a[k].parents =~= b[k].parents);
        assert(a[k].children =~= b[k].children);
    }
    assert(a =~= b);
}

impl LogicalPlan {
    /// The plan that a plan message describes: the node at each position becomes the node of
    /// that id, linked to the children it names and to the nodes that name it; the total size
    /// is the number of nodes. Fails where a node gives no operator, or else where a node
    /// names a child outside the list of nodes.
    pub fn from_pb(pb: LogicalPlanPb) -> (r: Result<LogicalPlan, ParsePbError>)
        requires
            pb.nodes@.len() <= i32::MAX,
        ensures
            match r {
                Err(ParsePbError::MissingOperator) => !pb_oprs_given(pb.nodes@),
                Err(ParsePbError::ChildOutOfIndex) => pb_oprs_given(pb.nodes@) && !pb_children_in_range(pb.nodes@),
                Ok(plan) => {
                    &&& pb_oprs_given(pb.nodes@)
                    &&& pb_children_in_range(pb.nodes@)
                    &&& plan@ == plan_of_pb(pb.nodes@)
                    &&& plan@.plan_meta.wf()
                },
            },
    {
        broadcast use vstd::std_specs::btree::group_btree_axioms;
        proof {
            lemma_u32_ordered();
        }
        let nodes_pb = &pb.nodes;
        let ghost s = nodes_pb@;
        let n = nodes_pb.len();
        // Every node must give its operator
        let mut i: usize = 0;
        while i < n
            invariant
                n == s.len(),
                s == nodes_pb@,
                s == pb.nodes@,
                i <= n,
                forall|j: int| 0 <= j < i ==> (#[trigger] s[j]).opr is Some,
            decreases n - i,
        {
            if nodes_pb[i].opr.is_none() {
                assert(s[i as int].opr is None);
                return Err(ParsePbError::MissingOperator);
            }
            i = i + 1;
        }
        // Every child must be one of the nodes
        let mut i: usize = 0;
        while i < n
            invariant
                n == s.len(),
                s == nodes_pb@,
                s == pb.nodes@,
                i <= n,
                pb_oprs_given(s),
                forall|j: int, t: int| 0 <= j < i && 0 <= t < s[j].children@.len() ==> 0 <= #[trigger] s[j].children@[t] < s.len(),
            decreases n - i,
        {
            let children = &nodes_pb[i].children;
            let mut t: usize = 0;
            while t < children.len()
                invariant
                    n == s.len(),
                    s == nodes_pb@,
                    s == pb.nodes@,
                s == pb.nodes@,
                    i < n,
                    children@ == s[i as int].children@,
                    t <= children@.len(),
                    pb_oprs_given(s),
                    forall|j: int, t: int| 0 <= j < i && 0 <= t < s[j].children@.len() ==> 0 <= #[trigger] s[j].children@[t] < s.len(),
                    forall|u: int| 0 <= u < t ==> 0 <= #[trigger] children@[u] < s.len(),
                decreases children@.len() - t,
            {
                let c = children[t];
                if c < 0 || c as usize >= n {
                    assert(!(0 <= s[i as int].children@[t as int] < s.len()));
                    return Err(ParsePbError::ChildOutOfIndex);
                }
                t = t + 1;
            }
            i = i + 1;
        }
        // The nodes, not yet linked
        let mut nodes: BTreeMap<u32, Node> = BTreeMap::new();
        let mut i: usize = 0;
        while i < n
            invariant
                n == s.len(),
                s == nodes_pb@,
                s == pb.nodes@,
                n <= i32::MAX,
                i <= n,
                pb_oprs_given(s),
                nodes_view(nodes@) == pb_linked(s, 0, 0).restrict(Set::new(|k: u32| k < i)),
            decreases n - i,
        {
            let opr = match &nodes_pb[i].opr {
                Some(o) => o.copy(),
                None => {
                    return Err(ParsePbError::MissingOperator);
                },
            };
            let ghost before = nodes@;
            let node = Node::new(i as u32, opr);
            nodes.insert(i as u32, node);
            proof {
                lemma_nodes_view_insert(before, i as u32, nodes@[i as u32]);
                let full = pb_linked(s, 0, 0);
                assert(full[i as u32].parents =~= Set::<u32>::empty());
                assert(full[i as u32].children =~= Set::<u32>::empty());
                assert(nodes_view(nodes@) =~= full.restrict(Set::new(|k: u32| k < i + 1)));
            }
            i = i + 1;
        }
        proof {
            assert(pb_linked(s, 0, 0).restrict(Set::new(|k: u32| k < n)) =~= pb_linked(s, 0, 0));
        }
        // The links, child by child
        let mut i: usize = 0;
        while i < n
            invariant
                n == s.len(),
                s == nodes_pb@,
                s == pb.nodes@,
                n <= i32::MAX,
                i <= n,
                pb_children_in_range(s),
                nodes_view(nodes@) == pb_linked(s, i as int, 0),
            decreases n - i,
        {
            let children = &nodes_pb[i].children;
            let mut t: usize = 0;
            while t < children.len()
                invariant
                    n == s.len(),
                    s == nodes_pb@,
                    s == pb.nodes@,
                s == pb.nodes@,
                    n <= i32::MAX,
                    i < n,
                    children@ == s[i as int].children@,
                    t <= children@.len(),
                    pb_children_in_range(s),
                    nodes_view(nodes@) == pb_linked(s, i as int, t as int),
                decreases children@.len() - t,
            {
                proof {
                    lemma_u32_ordered();
                }
                let c = children[t];
                assert(0 <= s[i as int].children@[t as int] < s.len());
                let cu = c as u32;
                let iu = i as u32;
                let ghost m0 = nodes@;
                proof {
                    lemma_nodes_view_dom(nodes@);
                }
                let node = map_get_mut(&mut nodes, iu).unwrap();
                node.add_child(cu);
                let ghost m1 = nodes@;
                proof {
                    lemma_nodes_view_insert(m0, iu, m1[iu]);
                    lemma_nodes_view_dom(nodes@);
                }
                let child = map_get_mut(&mut nodes, cu).unwrap();
                child.add_parent(iu);
                proof {
                    lemma_nodes_view_insert(m1, cu, nodes@[cu]);
                    lemma_pb_link_step(s, i as int, t as int);
                }
                t = t + 1;
            }
            proof {
                lemma_pb_link_next(s, i as int);
            }
            i = i + 1;
        }
        let plan = LogicalPlan { nodes, total_size: n, plan_meta: PlanMeta::default() };
        Ok(plan)
    }
}

/// The positions, in increasing order, that the ids of `cs` have in the list `ks`.
pub open spec fn children_positions(ks: Seq<u32>, cs: Set<u32>) -> Seq<i32> {
    sorted_ints(Set::new(|x: i32| 0 <= x < ks.len() && cs.contains(ks[x as int])))
}

/// The position of `c` in `keys`.
fn position_of(keys: &Vec<u32>, c: u32) -> (p: usize)
    requires
        keys@.contains(c),
    ensures
        p < keys@.len(),
        keys@[p as int] == c,
{
    let mut p: usize = 0;
    while p < keys.len()
        invariant
            keys@.contains(c),
            p <= keys@.len(),
            forall|q: int| 0 <= q < p ==> keys@[q] != c,
        decreases keys@.len() - p,
    {
        if keys[p] == c {
            return p;
        }
        p = p + 1;
    }
    proof {
        let q = choose|q: int| 0 <= q < keys@.len() && keys@[q] == c;
        assert(keys@[q] != c);
    }
    0
}

impl LogicalPlan {
    /// The message of the plan: its nodes in increasing id order, each with its operator and
    /// the positions, in increasing order, that its children have in that order.
    pub fn into_pb(self) -> (pb: LogicalPlanPb)
        requires
            self@.nodes.dom().len() <= i32::MAX,
            forall|k: u32, c: u32| #[trigger] self@.nodes.contains_key(k) && #[trigger] self@.nodes[k].children.contains(c) ==> self@.nodes.contains_key(c),
        ensures
            pb.nodes@.len() == self@.nodes.dom().len(),
            forall|i: int| 0 <= i < pb.nodes@.len() ==> {
                &&& (#[trigger] pb.nodes@[i]).opr == Some(self.nodes@[sorted_ids(self@.nodes.dom())[i]].opr)
                &&& pb.nodes@[i].children@ == children_positions(
                    sorted_ids(self@.nodes.dom()),
                    self@.nodes[sorted_ids(self@.nodes.dom())[i]].children,
                )
            },
    {
        broadcast use vstd::std_specs::btree::group_btree_axioms;
        proof {
            lemma_u32_ordered();
            lemma_nodes_view_dom(self.nodes@);
        }
        let ghost old_nodes = self.nodes@;
        let ghost view_nodes = self@.nodes;
        let keys = id_map_keys(&self.nodes);
        let ghost ks = sorted_ids(view_nodes.dom());
        proof {
            assert(keys@.to_set() == view_nodes.dom());
            lemma_ids_sorted_unique(keys@, ks);
        }
        let mut nodes = self.nodes;
        let mut out: Vec<NodePb> = Vec::new();
        let mut i: usize = 0;
        while i < keys.len()
            invariant
                keys@ == ks,
                ids_increasing(ks),
                ks.to_set() == view_nodes.dom(),
                ks.len() <= i32::MAX,
                view_nodes == nodes_view(old_nodes),
                i <= ks.len(),
                out@.len() == i,
                forall|k: u32, c: u32| #[trigger] view_nodes.contains_key(k) && #[trigger] view_nodes[k].children.contains(c) ==> view_nodes.contains_key(c),
                forall|j: int| i <= j < ks.len() ==> nodes@.contains_key(#[trigger] ks[j]) && nodes@[ks[j]] == old_nodes[ks[j]],
                forall|t: int| 0 <= t < i ==> {
                    &&& (#[trigger] out@[t]).opr == Some(old_nodes[ks[t]].opr)
                    &&& out@[t].children@ == children_positions(ks, view_nodes[ks[t]].children)
                },
            decreases ks.len() - i,
        {
            proof {
                lemma_u32_ordered();
            }
            let k = keys[i];
            let ghost before = nodes@;
            let node = nodes.remove(&k).unwrap();
            assert(node == old_nodes[ks[i as int]]);
            assert(ks.to_set().contains(k));
            let cs = id_set_items(&node.children);
            let ghost kids = view_nodes[k].children;
            assert(node.children@ == kids);
            let mut pos: Vec<i32> = Vec::new();
            let mut u: usize = 0;
            while u < cs.len()
                invariant
                    keys@ == ks,
                    ids_increasing(ks),
                    ks.len() <= i32::MAX,
                    ids_increasing(cs@),
                    cs@.to_set() == kids,
                    forall|c: u32| #[trigger] kids.contains(c) ==> ks.to_set().contains(c),
                    u <= cs@.len(),
                    pos@.len() == u,
                    forall|w: int| 0 <= w < u ==> 0 <= #[trigger] pos@[w] < ks.len() && ks[pos@[w] as int] == cs@[w],
                decreases cs@.len() - u,
            {
                let c = cs[u];
                assert(cs@.to_set().contains(c));
                assert(ks.to_set().contains(c));
                let q = position_of(&keys, c);
                pos.push(q as i32);
                u = u + 1;
            }
            proof {
                let target = Set::new(|x: i32| 0 <= x < ks.len() && kids.contains(ks[x as int]));
                assert(strictly_increasing(pos@)) by {
                    assert forall|a: int, b: int| 0 <= a < b < pos@.len() implies pos@[a] < pos@[b] by {
                        assert(cs@[a] < cs@[b]);
                        if pos@[a] >= pos@[b] {
                            if pos@[a] > pos@[b] {
                                assert(ks[pos@[b] as int] < ks[pos@[a] as int]);
                            }
                        }
                    }
                }
                assert(pos@.to_set() =~= target) by {
                    assert forall|x: i32| pos@.to_set().contains(x) <==> target.contains(x) by {
                        if pos@.to_set().contains(x) {
                            let w = choose|w: int| 0 <= w < pos@.len() && pos@[w] == x;
                            assert(cs@.to_set().contains(cs@[w]));
                        }
                        if target.contains(x) {
                            let c = ks[x as int];
                            assert(cs@.to_set().contains(c));
                            let w = choose|w: int| 0 <= w < cs@.len() && cs@[w] == c;
                            assert(ks[pos@[w] as int] == c);
                            if pos@[w] != x {
                                if pos@[w] < x {
                                    assert(ks[pos@[w] as int] < ks[x as int]);
                                } else {
                                    assert(ks[x as int] < ks[pos@[w] as int]);
                                }
                            }
                            assert(pos@.contains(x));
                        }
                    }
                }
                lemma_sorted_ints_is(pos@);
            }
            let ghost out_before = out@;
            out.push(NodePb { opr: Some(node.opr), children: pos });
            proof {
                assert forall|j: int| i + 1 <= j < ks.len() implies nodes@.contains_key(#[trigger] ks[j]) && nodes@[ks[j]] == old_nodes[ks[j]] by {
                    assert(ks[i as int] < ks[j]);
                    assert(before.contains_key(ks[j]));
                }
                assert forall|t: int| 0 <= t < i + 1 implies {
                    &&& (#[trigger] out@[t]).opr == Some(old_nodes[ks[t]].opr)
                    &&& out@[t].children@ == children_positions(ks, view_nodes[ks[t]].children)
                } by {
                    if t < i {
                        assert(out@[t] == out_before[t]);
                    }
                }
            }
            i = i + 1;
        }
        LogicalPlanPb { nodes: out }
    }
}

} // verus!
