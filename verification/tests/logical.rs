use gaia_ir::ir::common::NameOrId;
use gaia_ir::ir::plan::logical::{LogicalPlan, Node, Operator, OperatorKind};
use gaia_ir::ir::plan::logical_pb::{LogicalPlanPb, NodePb, ParsePbError};

fn no_opr() -> Operator {
    Operator { kind: OperatorKind::Other, alias: None, head_tag: None }
}

fn opr_of(kind: OperatorKind, alias: Option<NameOrId>) -> Operator {
    Operator { kind, alias, head_tag: None }
}

fn children_of(plan: &LogicalPlan, id: u32) -> Vec<u32> {
    plan.get_node(id).unwrap().children.iter().cloned().collect()
}

fn parents_of(plan: &LogicalPlan, id: u32) -> Vec<u32> {
    plan.get_node(id).unwrap().parents.iter().cloned().collect()
}

fn same_plan(a: &LogicalPlan, b: &LogicalPlan) -> bool {
    a == b
}

// The plan looks like:
//       root
//       / \
//      1    2
//     / \   |
//    3   4  |
//    \   /  |
//      5    |
//       \  /
//         6
//         |
//         7
fn create_logical_plan() -> LogicalPlan {
    let mut plan = LogicalPlan::default();
    plan.append_operator_as_node(no_opr(), vec![]).unwrap(); // root
    plan.append_operator_as_node(no_opr(), vec![0]).unwrap(); // node 1
    plan.append_operator_as_node(no_opr(), vec![0]).unwrap(); // node 2
    plan.append_operator_as_node(no_opr(), vec![1]).unwrap(); // node 3
    plan.append_operator_as_node(no_opr(), vec![1]).unwrap(); // node 4
    plan.append_operator_as_node(no_opr(), vec![3, 4]).unwrap(); // node 5
    plan.append_operator_as_node(no_opr(), vec![2, 5]).unwrap(); // node 6
    plan.append_operator_as_node(no_opr(), vec![6]).unwrap(); // node 7
    plan
}

#[test]
fn test_logical_plan() {
    let mut plan = LogicalPlan::default();

    let id = plan.append_operator_as_node(no_opr(), vec![]).unwrap();
    assert_eq!(id, 0);
    assert_eq!(plan.len(), 1);
    assert_eq!(plan.total_size, 1);

    let id = plan.append_operator_as_node(no_opr(), vec![0]).unwrap();
    assert_eq!(id, 1);
    assert_eq!(plan.len(), 2);
    assert_eq!(plan.total_size, 2);

    assert_eq!(parents_of(&plan, 1), vec![0]);
    assert_eq!(children_of(&plan, 0), vec![1]);

    let id = plan.append_operator_as_node(no_opr(), vec![0, 1]).unwrap();
    assert_eq!(id, 2);
    assert_eq!(plan.len(), 3);
    assert_eq!(plan.total_size, 3);

    assert_eq!(parents_of(&plan, 2), vec![0, 1]);
    assert_eq!(children_of(&plan, 0), vec![1, 2]);
    assert_eq!(children_of(&plan, 1), vec![2]);

    let node2 = plan.remove_node(2);
    assert_eq!(node2.unwrap().id, 2);
    assert_eq!(plan.len(), 2);
    assert_eq!(plan.total_size, 3);
    assert_eq!(children_of(&plan, 0), vec![1]);
    assert!(children_of(&plan, 1).is_empty());

    let _id = plan.append_operator_as_node(no_opr(), vec![0, 2]).unwrap();
    assert_eq!(_id, -1);
    assert_eq!(plan.len(), 2);
    assert_eq!(plan.total_size, 3);
    assert_eq!(children_of(&plan, 0), vec![1]);

    // add node2 back again for further testing recursive removal
    let _ = plan.append_operator_as_node(no_opr(), vec![0, 1]).unwrap();
    assert!(plan.get_node(3).is_some());
    let _ = plan.remove_node(1);
    assert_eq!(plan.len(), 2);
    assert_eq!(plan.total_size, 4);
    assert_eq!(children_of(&plan, 0), vec![3]);
    assert_eq!(parents_of(&plan, 3), vec![0]);
}

#[test]
fn test_get_merge_node() {
    let plan = create_logical_plan();
    let merge_node = plan.get_merge_node(1);
    assert_eq!(merge_node, Some(5));
    let merge_node = plan.get_merge_node(0);
    assert_eq!(merge_node, Some(6));
    // Not a branch node
    let merge_node = plan.get_merge_node(2);
    assert!(merge_node.is_none());
}

#[test]
fn test_merge_branch_plans() {
    let mut plan = LogicalPlan::with_root(Node::new(0, no_opr()));

    let mut subplan1 = LogicalPlan::with_root(Node::new(1, no_opr()));
    subplan1.append_node(Node::new(3, no_opr()), vec![1]);
    subplan1.append_node(Node::new(4, no_opr()), vec![1]);
    subplan1.append_node(Node::new(5, no_opr()), vec![3, 4]);

    let subplan2 = LogicalPlan::with_root(Node::new(2, no_opr()));

    plan.append_branch_plans(0, vec![subplan1, subplan2]);
    let mut expected_plan = create_logical_plan();
    expected_plan.remove_node(6);

    plan.append_node(Node::new(6, no_opr()), vec![2, 5]);
    plan.append_node(Node::new(7, no_opr()), vec![6]);

    assert!(same_plan(&plan, &create_logical_plan()));
}

#[test]
fn test_subplan() {
    let plan = create_logical_plan();
    let subplan = plan.subplan(2, 7);
    let mut expected_plan = LogicalPlan::with_root(Node::new(2, no_opr()));
    expected_plan.append_node(Node::new(6, no_opr()), vec![2]);
    assert!(same_plan(&subplan.unwrap(), &expected_plan));

    // The node 3 is at one of the branches, which is incomplete and hence invalid subplan
    let subplan = plan.subplan(1, 3);
    assert!(subplan.is_none());

    let subplan = plan.subplan(1, 6);
    let mut expected_plan = LogicalPlan::with_root(Node::new(1, no_opr()));
    expected_plan.append_node(Node::new(3, no_opr()), vec![1]);
    expected_plan.append_node(Node::new(4, no_opr()), vec![1]);
    expected_plan.append_node(Node::new(5, no_opr()), vec![3, 4]);

    assert!(same_plan(&subplan.unwrap(), &expected_plan));
}

#[test]
fn test_get_branch_plans() {
    let plan = create_logical_plan();
    let (merge_node, subplans) = plan.get_branch_plans(1);

    let plan1 = LogicalPlan::with_root(Node::new(3, no_opr()));
    let plan2 = LogicalPlan::with_root(Node::new(4, no_opr()));

    assert_eq!(merge_node, Some(5));
    assert_eq!(subplans.len(), 2);
    assert!(same_plan(&subplans[0], &plan1));
    assert!(same_plan(&subplans[1], &plan2));

    let (merge_node, subplans) = plan.get_branch_plans(0);
    let mut plan1 = LogicalPlan::with_root(Node::new(1, no_opr()));
    plan1.append_node(Node::new(3, no_opr()), vec![1]);
    plan1.append_node(Node::new(4, no_opr()), vec![1]);
    plan1.append_node(Node::new(5, no_opr()), vec![3, 4]);
    let plan2 = LogicalPlan::with_root(Node::new(2, no_opr()));

    assert_eq!(merge_node, Some(6));
    assert_eq!(subplans.len(), 2);
    assert!(same_plan(&subplans[0], &plan1));
    assert!(same_plan(&subplans[1], &plan2));

    let mut plan = LogicalPlan::default();
    plan.append_operator_as_node(no_opr(), vec![]).unwrap(); // root
    plan.append_operator_as_node(no_opr(), vec![0]).unwrap(); // node 1
    plan.append_operator_as_node(no_opr(), vec![0]).unwrap(); // node 2
    plan.append_operator_as_node(no_opr(), vec![0]).unwrap(); // node 3
    plan.append_operator_as_node(no_opr(), vec![1, 2, 3]).unwrap(); // node 4

    let (merge_node, subplans) = plan.get_branch_plans(0);
    let plan1 = LogicalPlan::with_root(Node::new(1, no_opr()));
    let plan2 = LogicalPlan::with_root(Node::new(2, no_opr()));
    let plan3 = LogicalPlan::with_root(Node::new(3, no_opr()));

    assert_eq!(merge_node, Some(4));
    assert_eq!(subplans.len(), 3);
    assert!(same_plan(&subplans[0], &plan1));
    assert!(same_plan(&subplans[1], &plan2));
    assert!(same_plan(&subplans[2], &plan3));
}

#[test]
fn node_links_and_first_child() {
    let mut node = Node::new(3, no_opr());
    assert_eq!(node.get_first_child(), None);
    node.add_child(9);
    node.add_child(5);
    node.add_parent(1);
    assert_eq!(node.get_first_child(), Some(5));
    assert_eq!(node.children.iter().cloned().collect::<Vec<u32>>(), vec![5, 9]);
    assert_eq!(node.parents.iter().cloned().collect::<Vec<u32>>(), vec![1]);
}

#[test]
fn append_node_without_parents_in_empty_plan() {
    let mut plan = LogicalPlan::default();
    assert!(plan.is_empty());
    assert!(plan.root().is_none());
    // In an empty plan the parents given are not looked up.
    assert_eq!(plan.append_node(Node::new(4, no_opr()), vec![1, 2]), 4);
    assert_eq!(plan.total_size, 5);
    assert!(parents_of(&plan, 4).is_empty());
    assert_eq!(plan.root().unwrap().id, 4);
}

#[test]
fn append_node_registers_alias() {
    let mut plan = LogicalPlan::default();
    let scan = opr_of(OperatorKind::Scan, Some(NameOrId::Str("a".to_string())));
    assert_eq!(plan.append_operator_as_node(scan, vec![]).unwrap(), 0);
    assert_eq!(plan.plan_meta.get_tag_node(&NameOrId::Str("a".to_string())), Some(0));
    assert_eq!(plan.plan_meta.get_curr_node(), 0);

    let expand = opr_of(OperatorKind::Edge, None);
    assert_eq!(plan.append_operator_as_node(expand, vec![0]).unwrap(), 1);
    assert_eq!(plan.plan_meta.get_curr_node(), 1);

    // An alias keeps the current node under its tag and leaves the current node as it is.
    let as_opr = opr_of(OperatorKind::As, Some(NameOrId::Id(7)));
    assert_eq!(plan.append_operator_as_node(as_opr, vec![1]).unwrap(), 2);
    assert_eq!(plan.plan_meta.get_tag_node(&NameOrId::Id(7)), Some(1));
    assert_eq!(plan.plan_meta.get_curr_node(), 1);

    // A projection of a bare tag makes the node of the tag current.
    let project = Operator { kind: OperatorKind::Project, alias: None, head_tag: Some(NameOrId::Str("a".to_string())) };
    assert_eq!(plan.append_operator_as_node(project, vec![2]).unwrap(), 3);
    assert_eq!(plan.plan_meta.get_curr_node(), 0);

    // Any other projection makes the new node current.
    let project = Operator { kind: OperatorKind::Project, alias: None, head_tag: Some(NameOrId::Str("b".to_string())) };
    assert_eq!(plan.append_operator_as_node(project, vec![3]).unwrap(), 4);
    assert_eq!(plan.plan_meta.get_curr_node(), 4);

    // A limit leaves the current node as it is.
    assert_eq!(plan.append_operator_as_node(opr_of(OperatorKind::Limit, None), vec![4]).unwrap(), 5);
    assert_eq!(plan.plan_meta.get_curr_node(), 4);

    // A failed append restores the current node, even after a scan moved it.
    assert_eq!(plan.append_operator_as_node(opr_of(OperatorKind::Scan, None), vec![42]).unwrap(), -1);
    assert_eq!(plan.plan_meta.get_curr_node(), 4);
    assert_eq!(plan.total_size, 6);
}

#[test]
fn remove_node_cascades_to_orphans() {
    let mut plan = create_logical_plan();
    // Removing node 1 orphans 3 and 4, and then 5; node 6 keeps its parent 2.
    let removed = plan.remove_node(1);
    assert_eq!(removed.unwrap().id, 1);
    let ids: Vec<u32> = plan.nodes.keys().cloned().collect();
    assert_eq!(ids, vec![0, 2, 6, 7]);
    assert_eq!(children_of(&plan, 0), vec![2]);
    assert_eq!(parents_of(&plan, 6), vec![2]);
    assert!(plan.remove_node(1).is_none());
    assert_eq!(plan.total_size, 8);
}

#[test]
fn append_branch_plans_to_node_with_children_is_ignored() {
    let mut plan = create_logical_plan();
    let before = plan.len();
    plan.append_branch_plans(0, vec![LogicalPlan::with_root(Node::new(10, no_opr()))]);
    assert_eq!(plan.len(), before);
    assert_eq!(children_of(&plan, 0), vec![1, 2]);
}

#[test]
fn subplan_of_same_node_or_missing_node_is_none() {
    let plan = create_logical_plan();
    assert!(plan.subplan(3, 3).is_none());
    assert!(plan.subplan(9, 3).is_none());
    // From the root to the last node: every node but the last.
    let sp = plan.subplan(0, 7).unwrap();
    let ids: Vec<u32> = sp.nodes.keys().cloned().collect();
    assert_eq!(ids, vec![0, 1, 2, 3, 4, 5, 6]);
    assert_eq!(children_of(&sp, 0), vec![1, 2]);
    assert_eq!(parents_of(&sp, 6), vec![2, 5]);
}

#[test]
fn branch_plans_of_plain_node_are_empty() {
    let plan = create_logical_plan();
    let (merge, plans) = plan.get_branch_plans(6);
    assert!(merge.is_none());
    assert!(plans.is_empty());
    let (merge, plans) = plan.get_branch_plans(99);
    assert!(merge.is_none());
    assert!(plans.is_empty());
}

#[test]
fn test_logical_plan_from_pb() {
    let root_pb = NodePb { opr: Some(no_opr()), children: vec![1, 2] };
    let node1_pb = NodePb { opr: Some(no_opr()), children: vec![2] };
    let node2_pb = NodePb { opr: Some(no_opr()), children: vec![] };
    let plan_pb = LogicalPlanPb { nodes: vec![root_pb, node1_pb, node2_pb] };

    let plan = LogicalPlan::from_pb(plan_pb).unwrap();
    assert_eq!(plan.len(), 3);
    assert_eq!(children_of(&plan, 0), vec![1, 2]);
    assert_eq!(children_of(&plan, 1), vec![2]);
    assert_eq!(parents_of(&plan, 1), vec![0]);
    assert_eq!(parents_of(&plan, 2), vec![0, 1]);
}

#[test]
fn test_logical_plan_into_pb() {
    let mut plan = LogicalPlan::default();
    let _ = plan.append_operator_as_node(no_opr(), vec![]).unwrap();
    let _ = plan.append_operator_as_node(no_opr(), vec![0]).unwrap();
    let _ = plan.append_operator_as_node(no_opr(), vec![0]).unwrap();

    let _ = plan.remove_node(1);

    let plan_pb = plan.into_pb();
    assert_eq!(plan_pb.nodes.len(), 2);

    let node0 = &plan_pb.nodes[0];
    let node1 = &plan_pb.nodes[1];
    assert_eq!(node0.opr, Some(no_opr()));
    assert_eq!(node0.children, vec![1]);
    assert_eq!(node1.opr, Some(no_opr()));
    assert!(node1.children.is_empty());
}

#[test]
fn from_pb_refuses_a_node_without_operator() {
    let plan_pb = LogicalPlanPb {
        nodes: vec![NodePb { opr: Some(no_opr()), children: vec![5] }, NodePb { opr: None, children: vec![] }],
    };
    // The missing operator is reported before the child out of index.
    assert_eq!(LogicalPlan::from_pb(plan_pb).err(), Some(ParsePbError::MissingOperator));
}

#[test]
fn from_pb_refuses_a_child_out_of_index() {
    let plan_pb = LogicalPlanPb {
        nodes: vec![NodePb { opr: Some(no_opr()), children: vec![1] }, NodePb { opr: Some(no_opr()), children: vec![-1] }],
    };
    assert_eq!(LogicalPlan::from_pb(plan_pb).err(), Some(ParsePbError::ChildOutOfIndex));
}

#[test]
fn pb_round_trip_renumbers_nodes() {
    let mut plan = create_logical_plan();
    let _ = plan.remove_node(1);
    // Nodes 0, 2, 6, 7 remain: they become 0, 1, 2, 3.
    let back = LogicalPlan::from_pb(plan.into_pb()).unwrap();
    assert_eq!(back.len(), 4);
    assert_eq!(back.total_size, 4);
    assert_eq!(children_of(&back, 0), vec![1]);
    assert_eq!(children_of(&back, 1), vec![2]);
    assert_eq!(children_of(&back, 2), vec![3]);
    assert_eq!(parents_of(&back, 2), vec![1]);
}

#[test]
fn plans_compare_by_nodes_only() {
    let a = create_logical_plan();
    let mut b = create_logical_plan();
    assert!(a == b);
    // The tag data and total size do not take part in the comparison.
    b.total_size = 100;
    assert!(a == b);
    let _ = b.remove_node(7);
    assert!(a != b);
    let mut c = LogicalPlan::with_root(Node::new(0, no_opr()));
    let d = LogicalPlan::with_root(Node::new(0, opr_of(OperatorKind::Scan, None)));
    assert!(c != d);
    c.append_node(Node::new(1, no_opr()), vec![0]);
    assert!(c != LogicalPlan::with_root(Node::new(0, no_opr())));
}
