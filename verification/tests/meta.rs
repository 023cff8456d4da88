use gaia_ir::ir::plan::meta::{reset_schema, set_schema_from_json, set_schema_simple, EntityPair, MetaType, RelationTriplet, Schema, StoreMeta};

fn pair(name: &str, id: i32) -> EntityPair {
    EntityPair::from((name.to_string(), id))
}

fn modern_schema() -> Schema {
    let entities = vec![pair("person", 0), pair("software", 1)];
    let relations = vec![
        RelationTriplet::from((pair("knows", 0), pair("person", 0), pair("person", 0))),
        RelationTriplet::from((pair("created", 1), pair("person", 0), pair("software", 1))),
    ];
    let columns = vec![pair("name", 0), pair("age", 1)];
    Schema::from((entities, relations, columns))
}

#[test]
fn schema_maps_names_to_ids() {
    let schema = modern_schema();
    assert!(schema.is_table_id());
    assert!(schema.is_column_id());
    assert_eq!(schema.get_table_id("person"), Some(0));
    assert_eq!(schema.get_table_id("created"), Some(1));
    assert_eq!(schema.get_table_id("city"), None);
    assert_eq!(schema.get_column_id("age"), Some(1));
    assert_eq!(schema.get_column_id("person"), None);
    assert_eq!(schema.get_table_names(MetaType::Entity).get(&1), Some(&"software".to_string()));
    assert_eq!(schema.get_table_names(MetaType::Relation).get(&0), Some(&"knows".to_string()));
    assert_eq!(schema.get_column_names().get(&0), Some(&"name".to_string()));
    assert_eq!(
        schema.get_relation_entities(&"created".to_string()),
        Some(("person".to_string(), "software".to_string()))
    );
    assert_eq!(schema.get_relation_entities(&"likes".to_string()), None);
    assert_eq!(schema.get_table_map().len(), 4);
}

#[test]
fn schema_without_tables_or_columns() {
    let schema = Schema::from((vec![], vec![], vec![]));
    assert!(!schema.is_table_id());
    assert!(!schema.is_column_id());
    assert_eq!(schema.get_table_id("person"), None);
    assert!(schema.get_table_map().is_empty());
}

#[test]
fn store_meta_schema_lifecycle() {
    let mut meta = StoreMeta::default();
    assert!(meta.schema.is_none());
    set_schema_from_json(&mut meta, None);
    assert!(meta.schema.is_none());
    set_schema_from_json(&mut meta, Some(modern_schema()));
    assert_eq!(meta.schema.as_ref().unwrap().get_table_id("knows"), Some(0));
    set_schema_simple(&mut meta, vec![pair("city", 3)], vec![], vec![]);
    assert_eq!(meta.schema.as_ref().unwrap().get_table_id("city"), Some(3));
    assert_eq!(meta.schema.as_ref().unwrap().get_table_id("knows"), None);
    reset_schema(&mut meta);
    assert!(meta.schema.is_none());
}

#[test]
fn entity_pairs_copy_their_fields() {
    let p = pair("person", 0);
    let q = p.copy();
    assert_eq!(q.name, "person");
    assert_eq!(q.id, 0);
    let t = RelationTriplet::from((pair("knows", 0), pair("person", 0), pair("person", 0))).copy();
    assert_eq!(t.edge.name, "knows");
    assert_eq!(t.dst.id, 0);
    assert_eq!(MetaType::default(), MetaType::Entity);
}

use gaia_ir::ir::common::NameOrId;
use gaia_ir::ir::plan::meta::{NodeMeta, PlanMeta};
use gaia_ir::ir::IrError;

fn same(a: &NameOrId, b: &NameOrId) -> bool {
    a.same_as(b)
}

#[test]
fn schema_references_by_name_or_id() {
    let schema = modern_schema();
    assert_eq!(schema.get_table_id_from_pb(&Some(NameOrId::Str("software".to_string()))), Some(1));
    assert_eq!(schema.get_table_id_from_pb(&Some(NameOrId::Id(42))), Some(42));
    assert_eq!(schema.get_table_id_from_pb(&Some(NameOrId::Str("city".to_string()))), None);
    assert_eq!(schema.get_table_id_from_pb(&None), None);
    assert_eq!(schema.get_column_id_from_pb(&Some(NameOrId::Str("age".to_string()))), Some(1));
    assert_eq!(schema.get_column_id_from_pb(&Some(NameOrId::Id(5))), Some(5));
    let (src, dst) = schema.get_entity_tables(&NameOrId::Str("created".to_string())).unwrap();
    assert!(same(&src, &NameOrId::Str("person".to_string())));
    assert!(same(&dst, &NameOrId::Str("software".to_string())));
    let (src, dst) = schema.get_entity_tables(&NameOrId::Id(1)).unwrap();
    assert!(same(&src, &NameOrId::Id(0)));
    assert!(same(&dst, &NameOrId::Id(1)));
    assert!(schema.get_entity_tables(&NameOrId::Id(9)).is_none());
    assert!(schema.get_entity_tables(&NameOrId::Str("likes".to_string())).is_none());
}

#[test]
fn node_meta_keeps_each_table_and_column_once() {
    let mut node = NodeMeta::new(MetaType::Relation);
    assert_eq!(node.get_meta_type(), MetaType::Relation);
    node.insert_table(NameOrId::Str("knows".to_string()));
    node.insert_table(NameOrId::Id(1));
    node.insert_table(NameOrId::Str("knows".to_string()));
    assert_eq!(node.get_tables().len(), 2);
    node.insert_column(NameOrId::Str("weight".to_string()));
    node.insert_column(NameOrId::Str("weight".to_string()));
    assert_eq!(node.get_columns().len(), 1);
    node.set_meta_type(MetaType::Entity);
    assert_eq!(node.get_meta_type(), MetaType::Entity);
}

#[test]
fn plan_meta_tags_and_nodes() {
    let mut plan = PlanMeta::new(0);
    assert_eq!(plan.get_curr_node(), 0);
    assert!(plan.curr_node_meta().is_some());
    assert!(plan.get_node_meta(1).is_none());
    plan.curr_node_meta_mut().insert_column(NameOrId::Str("name".to_string()));
    assert_eq!(plan.get_node_meta(0).unwrap().get_columns().len(), 1);
    plan.set_curr_node(2);
    assert!(plan.curr_node_meta().is_none());
    plan.curr_node_meta_mut().insert_table(NameOrId::Id(0));
    assert_eq!(plan.get_all_node_metas().len(), 2);

    let tag_a = NameOrId::Str("a".to_string());
    plan.insert_tag_node(tag_a.copy(), 0);
    plan.insert_tag_node(tag_a.copy(), 2);
    assert_eq!(plan.get_tag_node(&tag_a), Some(0));
    assert_eq!(plan.get_tag_node(&NameOrId::Str("b".to_string())), None);
    assert_eq!(plan.get_all_tag_nodes().len(), 1);
    assert_eq!(plan.tag_node_meta_mut(Some(&tag_a)).unwrap().get_columns().len(), 1);
    assert_eq!(plan.tag_node_meta_mut(None).unwrap().get_tables().len(), 1);
    match plan.tag_node_meta_mut(Some(&NameOrId::Str("b".to_string()))) {
        Err(IrError::TagNotExist(t)) => assert!(same(&t, &NameOrId::Str("b".to_string()))),
        _ => panic!("a tag that no node is kept under must be refused"),
    }

    plan.set_preprocess(true);
    plan.set_partition(true);
    assert!(plan.is_preprocess());
    assert!(plan.is_partition());
}

#[test]
fn tag_ids_are_assigned_once_and_distinct() {
    let mut plan = PlanMeta::new(0);
    let a = plan.get_or_set_tag_id(NameOrId::Str("a".to_string())).copy();
    let b = plan.get_or_set_tag_id(NameOrId::Str("b".to_string())).copy();
    let a_again = plan.get_or_set_tag_id(NameOrId::Str("a".to_string())).copy();
    assert!(same(&a, &NameOrId::Id(0)));
    assert!(same(&b, &NameOrId::Id(1)));
    assert!(same(&a_again, &a));
    assert!(!same(&a, &b));
}

use gaia_ir::ir::plan::meta::Column;

fn column(name: &str, id: i32, data_type: i32) -> Column {
    Column { name: name.to_string(), id, data_type }
}

#[test]
fn schema_from_lists_keeps_first_ids() {
    let entities = vec![
        (pair("person", 0), vec![column("name", 0, 4), column("age", 1, 1)]),
        (pair("software", 1), vec![column("name", 5, 4), column("lang", 2, 4)]),
    ];
    let rels = vec![
        (RelationTriplet::from((pair("knows", 0), pair("person", 0), pair("person", 0))), vec![column("weight", 3, 3)]),
        (RelationTriplet::from((pair("created", 1), pair("person", 0), pair("software", 1))), vec![]),
        (RelationTriplet::from((pair("knows", 7), pair("software", 1), pair("software", 1))), vec![]),
    ];
    let schema = Schema::from_schema_lists(entities, rels, true, true);
    assert_eq!(schema.get_table_id("person"), Some(0));
    assert_eq!(schema.get_table_id("knows"), Some(0));
    assert_eq!(schema.get_table_id("created"), Some(1));
    assert_eq!(schema.get_column_id("name"), Some(0));
    assert_eq!(schema.get_column_id("lang"), Some(2));
    assert_eq!(schema.get_column_id("weight"), Some(3));
    assert_eq!(
        schema.get_relation_entities(&"knows".to_string()),
        Some(("person".to_string(), "person".to_string()))
    );
    assert!(schema.get_entity_tables(&NameOrId::Id(7)).is_none());
    assert_eq!(schema.get_column_names().len(), 4);
    assert_eq!(schema.get_entities().len(), 2);
    assert_eq!(schema.get_relations().len(), 3);

    let unmapped = Schema::from_schema_lists(vec![(pair("person", 0), vec![column("name", 0, 4)])], vec![], false, false);
    assert!(!unmapped.is_table_id());
    assert_eq!(unmapped.get_table_id("person"), None);
    assert_eq!(unmapped.get_column_id("name"), None);
}

#[test]
fn node_meta_keeps_tables_and_columns_in_order() {
    let mut node = NodeMeta::new(MetaType::Entity);
    node.insert_table(NameOrId::Id(3));
    node.insert_table(NameOrId::Str("person".to_string()));
    node.insert_table(NameOrId::Id(1));
    node.insert_table(NameOrId::Str("knows".to_string()));
    node.insert_table(NameOrId::Id(3));
    assert_eq!(
        node.get_tables(),
        &vec![
            NameOrId::Str("knows".to_string()),
            NameOrId::Str("person".to_string()),
            NameOrId::Id(1),
            NameOrId::Id(3)
        ]
    );
    node.insert_column(NameOrId::Id(7));
    node.insert_column(NameOrId::Id(-2));
    node.insert_column(NameOrId::Str("name".to_string()));
    assert_eq!(
        node.get_columns(),
        &vec![NameOrId::Str("name".to_string()), NameOrId::Id(-2), NameOrId::Id(7)]
    );
}
