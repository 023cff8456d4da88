use gaia_ir::catalogue::pattern_meta::PatternMeta;
use gaia_ir::catalogue::pattern::Direction;
use gaia_ir::ir::catalogue::extend_step::{ExtendEdge, ExtendStep};
use gaia_ir::ir::catalogue::pattern::{Pattern, PatternEdge};
use gaia_ir::ir::catalogue::PatternDirection;
use gaia_ir::ir::plan::meta::{EntityPair, RelationTriplet, Schema};

/// A <-> A: two edges of label 0 between the two vertices of label 0, ids 0 and 1
fn build_pattern_case1() -> Pattern {
    let pattern_edge1 = PatternEdge::new(0, 0, 0, 1, 0, 0);
    let pattern_edge2 = PatternEdge::new(1, 0, 1, 0, 0, 0);
    Pattern::try_from(vec![pattern_edge1, pattern_edge2]).unwrap()
}

/// pattern_case1 with a vertex B (label 1, id 2) that both A's point to by edges of label 1
fn build_pattern_case2() -> Pattern {
    let pattern_edge1 = PatternEdge::new(0, 0, 0, 1, 0, 0);
    let pattern_edge2 = PatternEdge::new(1, 0, 1, 0, 0, 0);
    let pattern_edge3 = PatternEdge::new(2, 1, 0, 2, 0, 1);
    let pattern_edge4 = PatternEdge::new(3, 1, 1, 2, 0, 1);
    Pattern::try_from(vec![pattern_edge1, pattern_edge2, pattern_edge3, pattern_edge4]).unwrap()
}

/// Two edges of label 1 out of the two equivalent A's into a new B
fn build_extend_step_case1() -> ExtendStep {
    let extend_edge1 = ExtendEdge::new(0, 0, 1, PatternDirection::Out);
    let extend_edge2 = extend_edge1.clone();
    ExtendStep::from((1, vec![extend_edge1, extend_edge2]))
}

fn entity(name: &str, id: i32) -> EntityPair {
    EntityPair::from((name.to_string(), id))
}

/// The modern graph: person (0) knows person, person created software (1)
fn get_modern_pattern_meta() -> PatternMeta {
    let entities = vec![entity("person", 0), entity("software", 1)];
    let relations = vec![
        RelationTriplet::from((entity("knows", 0), entity("person", 0), entity("person", 0))),
        RelationTriplet::from((entity("created", 1), entity("person", 0), entity("software", 1))),
    ];
    let schema = Schema::from((entities, relations, vec![]));
    PatternMeta::from_schema(&schema)
}

#[test]
fn test_set_initial_vertex_index() {
    assert_eq!(1, 1);
}

#[test]
fn pattern_test_pattern_case1_structure() {
    let pattern_case1 = build_pattern_case1();
    assert_eq!(pattern_case1.get_edges().len(), 2);
    assert_eq!(pattern_case1.get_vertices().len(), 2);
    let edges_with_label_0 = pattern_case1.get_edge_label_map().get(&0).unwrap();
    assert_eq!(edges_with_label_0.len(), 2);
    let mut edges_with_label_0_iter = edges_with_label_0.iter();
    assert_eq!(*edges_with_label_0_iter.next().unwrap(), 0);
    assert_eq!(*edges_with_label_0_iter.next().unwrap(), 1);
    let vertices_with_label_0 = pattern_case1.get_vertex_label_map().get(&0).unwrap();
    assert_eq!(vertices_with_label_0.len(), 2);
    let mut vertices_with_label_0_iter = vertices_with_label_0.iter();
    assert_eq!(*vertices_with_label_0_iter.next().unwrap(), 0);
    assert_eq!(*vertices_with_label_0_iter.next().unwrap(), 1);
    let edge_0 = pattern_case1.get_edge_from_id(0).unwrap();
    assert_eq!(edge_0.id, 0);
    assert_eq!(edge_0.label, 0);
    assert_eq!(edge_0.start_v_id, 0);
    assert_eq!(edge_0.end_v_id, 1);
    assert_eq!(edge_0.start_v_label, 0);
    assert_eq!(edge_0.end_v_label, 0);
    let edge_1 = pattern_case1.get_edge_from_id(1).unwrap();
    assert_eq!(edge_1.id, 1);
    assert_eq!(edge_1.label, 0);
    assert_eq!(edge_1.start_v_id, 1);
    assert_eq!(edge_1.end_v_id, 0);
    assert_eq!(edge_1.start_v_label, 0);
    assert_eq!(edge_1.end_v_label, 0);
    let vertex_0 = pattern_case1.get_vertex_from_id(0).unwrap();
    assert_eq!(vertex_0.get_id(), 0);
    assert_eq!(vertex_0.get_label(), 0);
    assert_eq!(vertex_0.get_connected_edges().len(), 2);
    let mut vertex_0_connect_edges_iter = vertex_0.get_connected_edges().iter();
    let (v0_e0, (v0_v0, v0_d0)) = vertex_0_connect_edges_iter.next().unwrap();
    assert_eq!(*v0_e0, 0);
    assert_eq!(*v0_v0, 1);
    assert_eq!(*v0_d0, PatternDirection::Out);
    let (v0_e1, (v0_v1, v0_d1)) = vertex_0_connect_edges_iter.next().unwrap();
    assert_eq!(*v0_e1, 1);
    assert_eq!(*v0_v1, 1);
    assert_eq!(*v0_d1, PatternDirection::In);
    assert_eq!(vertex_0.get_connected_vertices().len(), 1);
    let v0_v1_connected_edges = vertex_0.get_connected_vertices().get(&1).unwrap();
    assert_eq!(v0_v1_connected_edges.len(), 2);
    let mut v0_v1_connected_edges_iter = v0_v1_connected_edges.iter();
    assert_eq!(*v0_v1_connected_edges_iter.next().unwrap(), (0, PatternDirection::Out));
    assert_eq!(*v0_v1_connected_edges_iter.next().unwrap(), (1, PatternDirection::In));
    let vertex_1 = pattern_case1.get_vertex_from_id(1).unwrap();
    assert_eq!(vertex_1.get_id(), 1);
    assert_eq!(vertex_1.get_label(), 0);
    assert_eq!(vertex_1.get_connected_edges().len(), 2);
    let mut vertex_1_connect_edges_iter = vertex_1.get_connected_edges().iter();
    let (v1_e0, (v1_v0, v1_d0)) = vertex_1_connect_edges_iter.next().unwrap();
    assert_eq!(*v1_e0, 0);
    assert_eq!(*v1_v0, 0);
    assert_eq!(*v1_d0, PatternDirection::In);
    let (v1_e1, (v1_v1, v1_d1)) = vertex_1_connect_edges_iter.next().unwrap();
    assert_eq!(*v1_e1, 1);
    assert_eq!(*v1_v1, 0);
    assert_eq!(*v1_d1, PatternDirection::Out);
    assert_eq!(vertex_1.get_connected_vertices().len(), 1);
    let v1_v0_connected_edges = vertex_1.get_connected_vertices().get(&0).unwrap();
    assert_eq!(v1_v0_connected_edges.len(), 2);
    let mut v1_v0_connected_edges_iter = v1_v0_connected_edges.iter();
    assert_eq!(*v1_v0_connected_edges_iter.next().unwrap(), (0, PatternDirection::In));
    assert_eq!(*v1_v0_connected_edges_iter.next().unwrap(), (1, PatternDirection::Out));
}

#[test]
fn pattern_test_pattern_case1_extend() {
    let pattern_case1 = build_pattern_case1();
    let extend_step = build_extend_step_case1();
    let pattern_after_extend = pattern_case1.extend(extend_step).unwrap();
    assert_eq!(pattern_after_extend.get_edges().len(), 4);
    assert_eq!(pattern_after_extend.get_vertices().len(), 3);
    let pattern_case2 = build_pattern_case2();
    assert_eq!(pattern_after_extend.get_edges().len(), pattern_case2.get_edges().len());
    for i in 0..pattern_after_extend.get_edges().len() as i32 {
        let edge1 = pattern_after_extend.get_edge_from_id(i).unwrap();
        let edge2 = pattern_case2.get_edge_from_id(i).unwrap();
        assert_eq!(edge1.id, edge2.id);
        assert_eq!(edge1.label, edge2.label);
        assert_eq!(edge1.start_v_id, edge2.start_v_id);
        assert_eq!(edge1.start_v_label, edge2.start_v_label);
        assert_eq!(edge1.end_v_id, edge2.end_v_id);
        assert_eq!(edge1.end_v_label, edge2.end_v_label);
    }
    for i in 0..pattern_after_extend.get_vertices().len() as i32 {
        let vertex1 = pattern_after_extend.get_vertex_from_id(i).unwrap();
        let vertex2 = pattern_case2.get_vertex_from_id(i).unwrap();
        assert_eq!(vertex1.get_id(), vertex2.get_id());
        assert_eq!(vertex1.get_label(), vertex2.get_label());
        assert_eq!(vertex1.get_rank(), vertex2.get_rank());
        assert_eq!(vertex1.get_in_degree(), vertex2.get_in_degree());
        assert_eq!(vertex1.get_out_degree(), vertex2.get_out_degree());
        assert_eq!(vertex1.get_connected_edges().len(), vertex2.get_connected_edges().len());
        assert_eq!(vertex1.get_connected_vertices().len(), vertex2.get_connected_vertices().len());
        for (connect_edge1_id, (connect_vertex1_id, dir1)) in vertex1.get_connected_edges() {
            let (connect_vertex2_id, dir2) = vertex2.get_connected_edges().get(connect_edge1_id).unwrap();
            assert_eq!(*connect_vertex1_id, *connect_vertex2_id);
            assert_eq!(*dir1, *dir2);
        }
        for (connect_vertex1_id, edge_connections1) in vertex1.get_connected_vertices() {
            let edge_connections2 = vertex2.get_connected_vertices().get(connect_vertex1_id).unwrap();
            let (connect_edge1_id, dir1) = edge_connections1[0];
            let (connect_edge2_id, dir2) = edge_connections2[0];
            assert_eq!(connect_edge1_id, connect_edge2_id);
            assert_eq!(dir1, dir2);
        }
    }
    assert_eq!(pattern_after_extend.get_edge_label_map().len(), pattern_case2.get_edge_label_map().len());
    for i in 0..=1 {
        let edges_with_labeli_1: Vec<i32> = pattern_after_extend.get_edge_label_map().get(&i).unwrap().iter().cloned().collect();
        let edges_with_labeli_2: Vec<i32> = pattern_case2.get_edge_label_map().get(&i).unwrap().iter().cloned().collect();
        assert_eq!(edges_with_labeli_1, edges_with_labeli_2);
    }
    assert_eq!(pattern_after_extend.get_vertex_label_map().len(), pattern_case2.get_vertex_label_map().len());
    for i in 0..=1 {
        let vertices_with_labeli_1: Vec<i32> = pattern_after_extend.get_vertex_label_map().get(&i).unwrap().iter().cloned().collect();
        let vertices_with_labeli_2: Vec<i32> = pattern_case2.get_vertex_label_map().get(&i).unwrap().iter().cloned().collect();
        assert_eq!(vertices_with_labeli_1, vertices_with_labeli_2);
    }
}

#[test]
fn pattern_test_get_extend_steps_of_modern_case1() {
    let modern_pattern_meta = get_modern_pattern_meta();
    let person_only_pattern = Pattern::from((0, 0));
    let all_extend_steps = person_only_pattern.get_extend_steps(&modern_pattern_meta);
    assert_eq!(all_extend_steps.len(), 3);
    let mut out_0_0_0 = 0;
    let mut incoming_0_0_0 = 0;
    let mut out_0_0_1 = 0;
    for extend_step in all_extend_steps {
        let extend_edges = extend_step.get_extend_edges_by_start_v(0, 0).unwrap();
        assert_eq!(extend_edges.len(), 1);
        let extend_edge = extend_edges[0];
        assert_eq!(extend_edge.get_start_vertex_label(), 0);
        assert_eq!(extend_edge.get_start_vertex_rankid(), 0);
        if extend_step.get_target_v_label() == 0 {
            if extend_edge.get_direction() == PatternDirection::Out {
                out_0_0_0 += 1;
            }
            if extend_edge.get_direction() == PatternDirection::In {
                incoming_0_0_0 += 1;
            }
        }
        if extend_step.get_target_v_label() == 1 && extend_edge.get_direction() == PatternDirection::Out {
            out_0_0_1 += 1;
        }
    }
    assert_eq!(out_0_0_0, 1);
    assert_eq!(incoming_0_0_0, 1);
    assert_eq!(out_0_0_1, 1);
}

#[test]
fn pattern_test_get_extend_steps_of_modern_case2() {
    let modern_pattern_meta = get_modern_pattern_meta();
    let software_only_pattern = Pattern::from((0, 1));
    let all_extend_steps = software_only_pattern.get_extend_steps(&modern_pattern_meta);
    assert_eq!(all_extend_steps.len(), 1);
    assert_eq!(all_extend_steps[0].get_target_v_label(), 0);
    assert_eq!(all_extend_steps[0].get_diff_start_v_num(), 1);
    let extend_edge = all_extend_steps[0].get_extend_edges_by_start_v(1, 0).unwrap()[0];
    assert_eq!(extend_edge.get_start_vertex_label(), 1);
    assert_eq!(extend_edge.get_start_vertex_rankid(), 0);
    assert_eq!(extend_edge.get_edge_label(), 1);
    assert_eq!(extend_edge.get_direction(), PatternDirection::In);
}

#[test]
fn extend_step_test_extend_step_case1_structure() {
    let extend_step1 = build_extend_step_case1();
    assert_eq!(extend_step1.get_target_v_label(), 1);
    assert_eq!(extend_step1.get_diff_start_v_num(), 1);
    assert_eq!(extend_step1.get_extend_edges_by_start_v(0, 0).unwrap().len(), 2);
    assert_eq!(
        extend_step1.get_extend_edges_by_start_v(0, 0).unwrap()[0],
        ExtendEdge { start_v_label: 0, start_v_rankid: 0, edge_label: 1, dir: PatternDirection::Out }
    );
    assert_eq!(
        extend_step1.get_extend_edges_by_start_v(0, 0).unwrap()[1],
        ExtendEdge { start_v_label: 0, start_v_rankid: 0, edge_label: 1, dir: PatternDirection::Out }
    );
}

#[test]
fn test_modern_graph_schema() {
    let modern_pattern_meta = get_modern_pattern_meta();
    assert_eq!(modern_pattern_meta.get_edge_num(), 2);
    assert_eq!(modern_pattern_meta.get_vertex_num(), 2);
    assert_eq!(modern_pattern_meta.get_connect_edges_of_v(0).len(), 3);
    assert_eq!(modern_pattern_meta.get_connect_edges_of_v(1).len(), 1);
    assert_eq!(modern_pattern_meta.get_connect_vertices_of_v(0).len(), 2);
    assert_eq!(modern_pattern_meta.get_connect_vertices_of_v(1).len(), 1);
    assert_eq!(modern_pattern_meta.get_edges_between_vertices(0, 0).len(), 2);
    assert_eq!(modern_pattern_meta.get_edges_between_vertices(0, 1).len(), 1);
    assert_eq!(modern_pattern_meta.get_edges_between_vertices(1, 0).len(), 1);
}

#[test]
fn pattern_meta_names_and_ids() {
    let meta = get_modern_pattern_meta();
    assert_eq!(meta.get_vertex_id("person"), Some(0));
    assert_eq!(meta.get_vertex_id("software"), Some(1));
    assert_eq!(meta.get_vertex_id("city"), None);
    assert_eq!(meta.get_edge_id("created"), Some(1));
    assert_eq!(meta.get_edge_id("likes"), None);
    assert_eq!(meta.get_all_vertex_ids(), vec![0, 1]);
    assert_eq!(meta.get_all_edge_ids(), vec![1, 0]);
}

#[test]
fn extend_adds_one_vertex_and_its_edges() {
    let pattern = build_pattern_case1();
    let extended = pattern.extend(build_extend_step_case1()).unwrap();
    assert_eq!(extended.get_vertex_num(), pattern.get_vertex_num() + 1);
    assert_eq!(extended.get_edge_num(), pattern.get_edge_num() + 2);
    let new_vertex = extended.get_vertex_from_id(2).unwrap();
    assert_eq!(new_vertex.get_label(), 1);
    assert_eq!(new_vertex.get_in_degree(), 2);
}

#[test]
fn extend_without_enough_vertices_is_none() {
    let pattern = build_pattern_case1();
    let three_edges = ExtendStep::from((
        1,
        vec![
            ExtendEdge::new(0, 0, 1, PatternDirection::Out),
            ExtendEdge::new(0, 0, 1, PatternDirection::Out),
            ExtendEdge::new(0, 0, 1, PatternDirection::Out),
        ],
    ));
    assert!(pattern.extend(three_edges).is_none());
    let from_missing_label = ExtendStep::from((1, vec![ExtendEdge::new(7, 0, 1, PatternDirection::In)]));
    assert!(pattern.extend(from_missing_label).is_none());
}

#[test]
fn empty_pattern_is_refused() {
    assert!(Pattern::try_from(Vec::<PatternEdge>::new()).is_err());
}

#[test]
fn pattern_counts_and_labels() {
    let pattern = build_pattern_case2();
    assert_eq!(pattern.get_edge_num(), 4);
    assert_eq!(pattern.get_vertex_num(), 3);
    assert_eq!(pattern.get_edge_label_num(), 2);
    assert_eq!(pattern.get_vertex_label_num(), 2);
    assert_eq!(pattern.get_max_edge_label(), Some(1));
    assert_eq!(pattern.get_max_vertex_label(), Some(1));
    assert_eq!(pattern.get_edge_vertices_rank(9), None);
}

#[test]
fn rank_ranking_orders_vertices_of_one_label() {
    // B (id 2) has only an in-edge from A; B (id 3) also points to C (id 4)
    let edges = vec![
        PatternEdge::new(0, 0, 1, 2, 0, 1),
        PatternEdge::new(1, 0, 1, 3, 0, 1),
        PatternEdge::new(2, 1, 3, 4, 1, 2),
    ];
    let mut pattern = Pattern::try_from(edges).unwrap();
    pattern.rank_ranking();
    assert_eq!(pattern.get_vertex_rank(1), 0);
    assert_eq!(pattern.get_vertex_rank(4), 0);
    let mut b_ranks = vec![pattern.get_vertex_rank(2), pattern.get_vertex_rank(3)];
    b_ranks.sort();
    assert_eq!(b_ranks, vec![0, 1]);
}

#[test]
fn ordered_edges_cover_every_edge_once() {
    let pattern = build_pattern_case2();
    let mut ordered = pattern.get_ordered_edges();
    assert_eq!(ordered.len(), 4);
    ordered.sort();
    assert_eq!(ordered, vec![0, 1, 2, 3]);
}

#[test]
fn pattern_meta_needs_resolvable_relations() {
    let entities = vec![entity("person", 0)];
    let relations = vec![RelationTriplet::from((entity("created", 1), entity("person", 0), entity("software", 1)))];
    let schema = Schema::from((entities, relations, vec![]));
    assert!(PatternMeta::try_from_schema(&schema).is_none());
    let modern = Schema::from((
        vec![entity("person", 0), entity("software", 1)],
        vec![RelationTriplet::from((entity("created", 1), entity("person", 0), entity("software", 1)))],
        vec![],
    ));
    let meta = PatternMeta::try_from_schema(&modern).unwrap();
    assert_eq!(meta.get_edge_num(), 1);
    assert_eq!(meta.get_vertex_num(), 2);
}

/// Person -> knows -> Person, the second person of rank 1
fn build_modern_pattern_case3() -> Pattern {
    let pattern_edge = PatternEdge::new(0, 0, 0, 1, 0, 0);
    let mut pattern = Pattern::try_from(vec![pattern_edge]).unwrap();
    pattern.get_vertex_mut_from_id(1).unwrap().set_rank(1);
    pattern
}

/// Person -> created -> Software
fn build_modern_pattern_case4() -> Pattern {
    let pattern_edge = PatternEdge::new(0, 1, 0, 1, 0, 1);
    Pattern::try_from(vec![pattern_edge]).unwrap()
}

#[test]
fn pattern_test_get_extend_steps_of_modern_case3() {
    let modern_pattern_meta = get_modern_pattern_meta();
    let person_knows_person = build_modern_pattern_case3();
    let all_extend_steps = person_knows_person.get_extend_steps(&modern_pattern_meta);
    assert_eq!(all_extend_steps.len(), 11);
    let mut extend_steps_with_label_0_count = 0;
    let mut extend_steps_with_label_1_count = 0;
    let mut out_0_0_0_count = 0;
    let mut incoming_0_0_0_count = 0;
    let mut out_0_1_0_count = 0;
    let mut incoming_0_1_0_count = 0;
    let mut out_0_0_1_count = 0;
    let mut out_0_1_1_count = 0;
    let mut out_0_0_0_out_0_1_0_count = 0;
    let mut out_0_0_0_incoming_0_1_0_count = 0;
    let mut incoming_0_0_0_out_0_1_0_count = 0;
    let mut incoming_0_0_0_incoming_0_1_0_count = 0;
    let mut out_0_0_1_out_0_1_1_count = 0;
    for extend_step in all_extend_steps {
        if extend_step.get_target_v_label() == 0 {
            extend_steps_with_label_0_count += 1;
            if extend_step.get_diff_start_v_num() == 1 {
                if extend_step.has_extend_from_start_v(0, 0) {
                    let extend_edges = extend_step
                        .get_extend_edges_by_start_v(0, 0)
                        .unwrap();
                    for extend_edge in extend_edges {
                        assert_eq!(extend_edge.get_start_vertex_label(), 0);
                        assert_eq!(extend_edge.get_start_vertex_rankid(), 0);
                        if extend_edge.get_direction() == PatternDirection::Out
                            && extend_edge.get_edge_label() == 0
                        {
                            out_0_0_0_count += 1;
                        }
                        if extend_edge.get_direction() == PatternDirection::In
                            && extend_edge.get_edge_label() == 0
                        {
                            incoming_0_0_0_count += 1
                        }
                        if extend_edge.get_direction() == PatternDirection::Out
                            && extend_edge.get_edge_label() == 1
                        {
                            out_0_0_1_count += 1;
                        }
                        if extend_edge.get_direction() == PatternDirection::Out
                            && extend_edge.get_edge_label() == 1
                        {
                            out_0_1_1_count += 1;
                        }
                    }
                } else if extend_step.has_extend_from_start_v(0, 1) {
                    let extend_edges = extend_step
                        .get_extend_edges_by_start_v(0, 1)
                        .unwrap();
                    for extend_edge in extend_edges {
                        assert_eq!(extend_edge.get_start_vertex_label(), 0);
                        assert_eq!(extend_edge.get_start_vertex_rankid(), 1);
                        if extend_edge.get_direction() == PatternDirection::In
                            && extend_edge.get_edge_label() == 0
                        {
                            out_0_1_0_count += 1;
                        }
                        if extend_edge.get_direction() == PatternDirection::In
                            && extend_edge.get_edge_label() == 0
                        {
                            incoming_0_1_0_count += 1;
                        }
                        if extend_edge.get_direction() == PatternDirection::Out
                            && extend_edge.get_edge_label() == 1
                        {
                            out_0_0_1_count += 1;
                        }
                        if extend_edge.get_direction() == PatternDirection::Out
                            && extend_edge.get_edge_label() == 1
                        {
                            out_0_1_1_count += 1;
                        }
                    }
                }
            } else if extend_step.get_diff_start_v_num() == 2 {
                let mut found_out_0_0_0 = false;
                let mut found_incoming_0_0_0 = false;
                let mut found_out_0_1_0 = false;
                let mut found_incoming_0_1_0 = false;
                if extend_step.has_extend_from_start_v(0, 0) {
                    let extend_edges = extend_step
                        .get_extend_edges_by_start_v(0, 0)
                        .unwrap();
                    for extend_edge in extend_edges {
                        assert_eq!(extend_edge.get_start_vertex_label(), 0);
                        assert_eq!(extend_edge.get_start_vertex_rankid(), 0);
                        if extend_edge.get_direction() == PatternDirection::Out
                            && extend_edge.get_edge_label() == 0
                        {
                            found_out_0_0_0 = true;
                        } else if extend_edge.get_direction() == PatternDirection::In
                            && extend_edge.get_edge_label() == 0
                        {
                            found_incoming_0_0_0 = true;
                        }
                    }
                }
                if extend_step.has_extend_from_start_v(0, 1) {
                    let extend_edges = extend_step
                        .get_extend_edges_by_start_v(0, 1)
                        .unwrap();
                    for extend_edge in extend_edges {
                        assert_eq!(extend_edge.get_start_vertex_label(), 0);
                        assert_eq!(extend_edge.get_start_vertex_rankid(), 1);
                        if extend_edge.get_direction() == PatternDirection::Out
                            && extend_edge.get_edge_label() == 0
                        {
                            found_out_0_1_0 = true;
                        } else if extend_edge.get_direction() == PatternDirection::In
                            && extend_edge.get_edge_label() == 0
                        {
                            found_incoming_0_1_0 = true;
                        }
                    }
                }
                if found_out_0_0_0 && found_out_0_1_0 {
                    out_0_0_0_out_0_1_0_count += 1;
                } else if found_out_0_0_0 && found_incoming_0_1_0 {
                    out_0_0_0_incoming_0_1_0_count += 1;
                } else if found_incoming_0_0_0 && found_out_0_1_0 {
                    incoming_0_0_0_out_0_1_0_count += 1;
                } else if found_incoming_0_0_0 && found_incoming_0_1_0 {
                    incoming_0_0_0_incoming_0_1_0_count += 1;
                }
            }
        } else if extend_step.get_target_v_label() == 1 {
            extend_steps_with_label_1_count += 1;
            if extend_step.get_diff_start_v_num() == 1 {
                if extend_step.has_extend_from_start_v(0, 0) {
                    let extend_edges = extend_step
                        .get_extend_edges_by_start_v(0, 0)
                        .unwrap();
                    for extend_edge in extend_edges {
                        assert_eq!(extend_edge.get_start_vertex_label(), 0);
                        assert_eq!(extend_edge.get_start_vertex_rankid(), 0);
                        if extend_edge.get_direction() == PatternDirection::Out
                            && extend_edge.get_edge_label() == 1
                        {
                            out_0_0_1_count += 1;
                        }
                        if extend_edge.get_direction() == PatternDirection::Out
                            && extend_edge.get_edge_label() == 0
                        {
                            out_0_0_0_count += 1;
                        }
                        if extend_edge.get_direction() == PatternDirection::In
                            && extend_edge.get_edge_label() == 0
                        {
                            incoming_0_0_0_count += 1
                        }
                    }
                } else if extend_step.has_extend_from_start_v(0, 1) {
                    let extend_edges = extend_step
                        .get_extend_edges_by_start_v(0, 1)
                        .unwrap();
                    for extend_edge in extend_edges {
                        assert_eq!(extend_edge.get_start_vertex_label(), 0);
                        assert_eq!(extend_edge.get_start_vertex_rankid(), 1);
                        if extend_edge.get_direction() == PatternDirection::Out
                            && extend_edge.get_edge_label() == 1
                        {
                            out_0_1_1_count += 1;
                        }
                        if extend_edge.get_direction() == PatternDirection::Out
                            && extend_edge.get_edge_label() == 0
                        {
                            out_0_0_0_count += 1;
                        }
                        if extend_edge.get_direction() == PatternDirection::In
                            && extend_edge.get_edge_label() == 0
                        {
                            incoming_0_0_0_count += 1
                        }
                    }
                }
            } else if extend_step.get_diff_start_v_num() == 2 {
                let mut found_out_0_0_1 = false;
                let mut found_out_0_1_1 = false;
                if extend_step.has_extend_from_start_v(0, 0) {
                    let extend_edges = extend_step
                        .get_extend_edges_by_start_v(0, 0)
                        .unwrap();
                    for extend_edge in extend_edges {
                        assert_eq!(extend_edge.get_start_vertex_label(), 0);
                        assert_eq!(extend_edge.get_start_vertex_rankid(), 0);
                        if extend_edge.get_direction() == PatternDirection::Out
                            && extend_edge.get_edge_label() == 1
                        {
                            found_out_0_0_1 = true;
                        }
                    }
                }
                if extend_step.has_extend_from_start_v(0, 1) {
                    let extend_edges = extend_step
                        .get_extend_edges_by_start_v(0, 1)
                        .unwrap();
                    for extend_edge in extend_edges {
                        assert_eq!(extend_edge.get_start_vertex_label(), 0);
                        assert_eq!(extend_edge.get_start_vertex_rankid(), 1);
                        if extend_edge.get_direction() == PatternDirection::Out
                            && extend_edge.get_edge_label() == 1
                        {
                            found_out_0_1_1 = true;
                        }
                    }
                }
                if found_out_0_0_1 && found_out_0_1_1 {
                    out_0_0_1_out_0_1_1_count += 1;
                }
            }
        }
    }
    assert_eq!(extend_steps_with_label_0_count, 8);
    assert_eq!(extend_steps_with_label_1_count, 3);
    assert_eq!(out_0_0_0_count, 1);
    assert_eq!(incoming_0_0_0_count, 1);
    assert_eq!(out_0_1_0_count, 1);
    assert_eq!(incoming_0_1_0_count, 1);
    assert_eq!(out_0_0_1_count, 1);
    assert_eq!(out_0_1_1_count, 1);
    assert_eq!(out_0_0_0_out_0_1_0_count, 1);
    assert_eq!(out_0_0_0_incoming_0_1_0_count, 1);
    assert_eq!(incoming_0_0_0_out_0_1_0_count, 1);
    assert_eq!(incoming_0_0_0_incoming_0_1_0_count, 1);
    assert_eq!(out_0_0_1_out_0_1_1_count, 1);
}

#[test]
fn pattern_test_get_extend_steps_of_modern_case4() {
    let modern_pattern_meta = get_modern_pattern_meta();
    let person_created_software = build_modern_pattern_case4();
    let all_extend_steps = person_created_software.get_extend_steps(&modern_pattern_meta);
    assert_eq!(all_extend_steps.len(), 6);
    let mut extend_steps_with_label_0_count = 0;
    let mut extend_steps_with_label_1_count = 0;
    let mut out_0_0_0_count = 0;
    let mut incoming_0_0_0_count = 0;
    let mut incoming_1_0_1_count = 0;
    let mut out_0_0_0_incoming_1_0_1_count = 0;
    let mut incoming_0_0_0_incoming_1_0_1_count = 0;
    for extend_step in all_extend_steps {
        if extend_step.get_target_v_label() == 0 {
            extend_steps_with_label_0_count += 1;
            if extend_step.get_diff_start_v_num() == 1 {
                if extend_step.has_extend_from_start_v(0, 0) {
                    let extend_edges = extend_step
                        .get_extend_edges_by_start_v(0, 0)
                        .unwrap();
                    for extend_edge in extend_edges {
                        assert_eq!(extend_edge.get_start_vertex_label(), 0);
                        assert_eq!(extend_edge.get_start_vertex_rankid(), 0);
                        if extend_edge.get_direction() == PatternDirection::Out
                            && extend_edge.get_edge_label() == 0
                        {
                            out_0_0_0_count += 1;
                        }
                        if extend_edge.get_direction() == PatternDirection::In
                            && extend_edge.get_edge_label() == 0
                        {
                            incoming_0_0_0_count += 1;
                        }
                        if extend_edge.get_direction() == PatternDirection::In
                            && extend_edge.get_edge_label() == 1
                        {
                            incoming_1_0_1_count += 1;
                        }
                    }
                } else if extend_step.has_extend_from_start_v(1, 0) {
                    let extend_edges = extend_step
                        .get_extend_edges_by_start_v(1, 0)
                        .unwrap();
                    for extend_edge in extend_edges {
                        assert_eq!(extend_edge.get_start_vertex_label(), 1);
                        assert_eq!(extend_edge.get_start_vertex_rankid(), 0);
                        if extend_edge.get_direction() == PatternDirection::Out
                            && extend_edge.get_edge_label() == 0
                        {
                            out_0_0_0_count += 1;
                        }
                        if extend_edge.get_direction() == PatternDirection::In
                            && extend_edge.get_edge_label() == 0
                        {
                            incoming_0_0_0_count += 1;
                        }
                        if extend_edge.get_direction() == PatternDirection::In
                            && extend_edge.get_edge_label() == 1
                        {
                            incoming_1_0_1_count += 1;
                        }
                    }
                }
            } else if extend_step.get_diff_start_v_num() == 2 {
                let mut found_out_0_0_0 = false;
                let mut found_incoming_1_0_1 = false;
                let mut found_incoming_0_0_0 = false;
                if extend_step.has_extend_from_start_v(0, 0) {
                    let extend_edges = extend_step
                        .get_extend_edges_by_start_v(0, 0)
                        .unwrap();
                    for extend_edge in extend_edges {
                        assert_eq!(extend_edge.get_start_vertex_label(), 0);
                        assert_eq!(extend_edge.get_start_vertex_rankid(), 0);
                        if extend_edge.get_direction() == PatternDirection::Out
                            && extend_edge.get_edge_label() == 0
                        {
                            found_out_0_0_0 = true;
                        } else if extend_edge.get_direction() == PatternDirection::In
                            && extend_edge.get_edge_label() == 0
                        {
                            found_incoming_0_0_0 = true;
                        }
                    }
                }
                if extend_step.has_extend_from_start_v(1, 0) {
                    let extend_edges = extend_step
                        .get_extend_edges_by_start_v(1, 0)
                        .unwrap();
                    for extend_edge in extend_edges {
                        assert_eq!(extend_edge.get_start_vertex_label(), 1);
                        assert_eq!(extend_edge.get_start_vertex_rankid(), 0);
                        if extend_edge.get_direction() == PatternDirection::In
                            && extend_edge.get_edge_label() == 1
                        {
                            found_incoming_1_0_1 = true;
                        }
                    }
                }
                if found_out_0_0_0 && found_incoming_1_0_1 {
                    out_0_0_0_incoming_1_0_1_count += 1;
                } else if found_incoming_0_0_0 && found_incoming_1_0_1 {
                    incoming_0_0_0_incoming_1_0_1_count += 1;
                }
            }
        } else if extend_step.get_target_v_label() == 1 {
            extend_steps_with_label_1_count += 1;
        }
    }
    assert_eq!(extend_steps_with_label_0_count, 5);
    assert_eq!(extend_steps_with_label_1_count, 1);
    assert_eq!(out_0_0_0_count, 1);
    assert_eq!(incoming_0_0_0_count, 1);
    assert_eq!(incoming_1_0_1_count, 1);
    assert_eq!(out_0_0_0_incoming_1_0_1_count, 1);
    assert_eq!(incoming_0_0_0_incoming_1_0_1_count, 1);
}

#[test]
fn rank_ranking_tells_tied_vertices_apart_through_neighbours() {
    // A (id 1) -> B (id 3) -> C (id 5), and A (id 2) -> B (id 4): the two A's tie on labels and
    // degrees, and their neighbours B differ in rank, so the A of the greater B ranks after.
    let edges = vec![
        PatternEdge::new(0, 5, 1, 3, 0, 1),
        PatternEdge::new(1, 5, 2, 4, 0, 1),
        PatternEdge::new(2, 6, 3, 5, 1, 2),
    ];
    let mut pattern = Pattern::try_from(edges).unwrap();
    pattern.rank_ranking();
    assert_eq!(pattern.get_vertex_rank(3), 1);
    assert_eq!(pattern.get_vertex_rank(4), 0);
    assert_eq!(pattern.get_vertex_rank(5), 0);
    assert_eq!(pattern.get_vertex_rank(1), 1);
    assert_eq!(pattern.get_vertex_rank(2), 0);
}

#[test]
fn rank_ranking_keeps_indistinguishable_vertices_tied() {
    // A <-> A of pattern_case1: nothing tells the two A's apart.
    let mut pattern = build_pattern_case1();
    pattern.rank_ranking();
    assert_eq!(pattern.get_vertex_rank(0), 0);
    assert_eq!(pattern.get_vertex_rank(1), 0);
}

#[test]
fn pattern_meta_ids_come_in_name_order() {
    let entities = vec![entity("software", 1), entity("person", 0)];
    let relations = vec![
        RelationTriplet::from((entity("likes", 2), entity("person", 0), entity("software", 1))),
        RelationTriplet::from((entity("created", 1), entity("person", 0), entity("software", 1))),
        RelationTriplet::from((entity("knows", 0), entity("person", 0), entity("person", 0))),
    ];
    let schema = Schema::from((entities, relations, vec![]));
    let meta = PatternMeta::from_schema(&schema);
    assert_eq!(meta.get_all_vertex_ids(), vec![0, 1]);
    assert_eq!(meta.get_all_edge_ids(), vec![1, 0, 2]);
}

#[test]
fn rank_ranking_twice_changes_nothing() {
    let edges = vec![
        PatternEdge::new(0, 5, 1, 3, 0, 1),
        PatternEdge::new(1, 5, 2, 4, 0, 1),
        PatternEdge::new(2, 6, 3, 5, 1, 2),
    ];
    let mut pattern = Pattern::try_from(edges).unwrap();
    pattern.rank_ranking();
    let first: Vec<i32> = (1..6).map(|v| pattern.get_vertex_rank(v)).collect();
    pattern.rank_ranking();
    let second: Vec<i32> = (1..6).map(|v| pattern.get_vertex_rank(v)).collect();
    assert_eq!(first, second);
    // every rank stays below the number of vertices of its label
    assert!(first.iter().all(|r| *r >= 0 && *r < 2));
}

#[test]
fn pattern_meta_connections_agree() {
    let meta = get_modern_pattern_meta();
    // created goes out from person to software, and comes in to software from person
    assert!(meta.get_edges_between_vertices(0, 1).contains(&(1, Direction::Out)));
    assert!(meta.get_edges_between_vertices(1, 0).contains(&(1, Direction::Incoming)));
    // the vertex labels that a label connects to are those with an edge between them
    for v in 0..2 {
        let connected = meta.get_connect_vertices_of_v(v);
        for u in 0..3 {
            assert_eq!(connected.contains(&u), !meta.get_edges_between_vertices(v, u).is_empty());
        }
    }
    // relations are edge labels only, the other tables vertex labels only
    assert_eq!(meta.get_vertex_id("knows"), None);
    assert_eq!(meta.get_edge_id("person"), None);
    assert_eq!(meta.get_edge_id("knows"), Some(0));
}

#[test]
fn pattern_from_edges_counts_degrees_and_labels() {
    let edges = vec![
        PatternEdge::new(0, 5, 1, 3, 0, 1),
        PatternEdge::new(1, 5, 2, 4, 0, 1),
        PatternEdge::new(2, 6, 3, 5, 1, 2),
        PatternEdge::new(3, 6, 4, 3, 1, 1),
    ];
    let pattern = Pattern::try_from(edges.clone()).unwrap();
    assert_eq!(pattern.get_edge_num(), edges.len());
    for v in 1..6 {
        let vertex = pattern.get_vertex_from_id(v).unwrap();
        let starts = edges.iter().filter(|e| e.start_v_id == v).count();
        let ends = edges.iter().filter(|e| e.end_v_id == v).count();
        assert_eq!(vertex.get_out_degree(), starts);
        assert_eq!(vertex.get_in_degree(), ends);
        assert_eq!(vertex.get_connect_num(), starts + ends);
        assert_eq!(vertex.get_rank(), 0);
        assert_eq!(vertex.get_connected_edges().len(), starts + ends);
    }
    assert!(pattern.get_vertex_from_id(6).is_none());
    assert_eq!(pattern.get_edge_label_map().get(&5).unwrap().len(), 2);
    assert_eq!(pattern.get_edge_label_map().get(&6).unwrap().len(), 2);
    assert_eq!(pattern.get_vertex_label_map().get(&1).unwrap().len(), 2);
    assert_eq!(pattern.get_vertex_label_map().get(&2).unwrap().len(), 1);
}

#[test]
fn extended_pattern_degrees_match_connections() {
    let pattern = build_pattern_case1();
    let extended = pattern.extend(build_extend_step_case1()).unwrap();
    for v in 0..3 {
        let vertex = extended.get_vertex_from_id(v).unwrap();
        let outs = vertex.get_connected_edges().values().filter(|c| c.1 == PatternDirection::Out).count();
        let ins = vertex.get_connected_edges().values().filter(|c| c.1 == PatternDirection::In).count();
        assert_eq!(vertex.get_out_degree(), outs);
        assert_eq!(vertex.get_in_degree(), ins);
    }
}

#[test]
fn pattern_from_edges_builds_the_pattern_of_its_edges() {
    let edges = vec![PatternEdge::new(0, 0, 0, 1, 0, 0), PatternEdge::new(1, 0, 1, 0, 0, 0)];
    let pattern = Pattern::from_edges(edges.clone());
    let same = Pattern::try_from(edges).unwrap();
    assert_eq!(pattern.get_edge_num(), 2);
    assert_eq!(pattern.get_vertex_num(), 2);
    assert_eq!(pattern.get_edge_num(), same.get_edge_num());
    assert_eq!(pattern.get_vertex_from_id(0).unwrap().get_out_degree(), 1);
    assert_eq!(pattern.get_vertex_from_id(0).unwrap().get_in_degree(), 1);
}

#[test]
fn set_initial_rank_case1() {
    let mut pattern = build_pattern_case1();
    pattern.set_initial_rank();
    let vertices = pattern.get_vertices();
    assert_eq!(vertices.get(&0).unwrap().get_rank(), 0);
    assert_eq!(vertices.get(&1).unwrap().get_rank(), 0);
}

#[test]
fn set_initial_rank_case2() {
    let mut pattern = build_pattern_case2();
    pattern.set_initial_rank();
    let vertices = pattern.get_vertices();
    assert_eq!(vertices.get(&0).unwrap().get_rank(), 0);
    assert_eq!(vertices.get(&1).unwrap().get_rank(), 0);
    assert_eq!(vertices.get(&2).unwrap().get_rank(), 0);
}

#[test]
fn set_accurate_rank_case1() {
    let mut pattern = build_pattern_case1();
    pattern.rank_ranking();
    let vertices = pattern.get_vertices();
    assert_eq!(vertices.get(&0).unwrap().get_rank(), 0);
    assert_eq!(vertices.get(&1).unwrap().get_rank(), 0);
}

#[test]
fn set_accurate_rank_case2() {
    let mut pattern = build_pattern_case2();
    pattern.rank_ranking();
    let vertices = pattern.get_vertices();
    assert_eq!(vertices.get(&0).unwrap().get_rank(), 0);
    assert_eq!(vertices.get(&1).unwrap().get_rank(), 0);
    assert_eq!(vertices.get(&2).unwrap().get_rank(), 0);
}

#[test]
fn pattern_meta_edges_between_count_alike() {
    let meta = get_modern_pattern_meta();
    for a in 0..2 {
        for b in 0..2 {
            for e in 0..2 {
                let outs = meta.get_edges_between_vertices(a, b).iter().filter(|x| **x == (e, Direction::Out)).count();
                let ins = meta.get_edges_between_vertices(b, a).iter().filter(|x| **x == (e, Direction::Incoming)).count();
                assert_eq!(outs, ins);
            }
        }
        let between: usize = (0..2).map(|b| meta.get_edges_between_vertices(a, b).len()).sum();
        assert_eq!(meta.get_connect_edges_of_v(a).len(), between);
    }
    assert!(meta.get_edges_between_vertices(5, 7).is_empty());
}
