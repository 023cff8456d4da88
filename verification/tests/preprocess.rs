use gaia_ir::ir::common::NameOrId;
use gaia_ir::ir::plan::meta::{set_schema_simple, EntityPair, PlanMeta, RelationTriplet, StoreMeta};
use gaia_ir::ir::plan::preprocess::{preprocess_expression, ExprOpr, Expression, PropertyKey, Value, Variable};
use gaia_ir::ir::IrError;

fn pair(name: &str, id: i32) -> EntityPair {
    EntityPair::from((name.to_string(), id))
}

fn name(s: &str) -> NameOrId {
    NameOrId::Str(s.to_string())
}

fn store() -> StoreMeta {
    let mut meta = StoreMeta::default();
    set_schema_simple(
        &mut meta,
        vec![pair("person", 0), pair("software", 1), pair("project", 2)],
        vec![
            RelationTriplet::from((pair("knows", 0), pair("person", 0), pair("person", 0))),
            RelationTriplet::from((pair("creates", 1), pair("person", 0), pair("software", 1))),
        ],
        vec![pair("id", 0), pair("name", 1), pair("age", 2)],
    );
    meta
}

fn label_var(tag: Option<NameOrId>) -> ExprOpr {
    ExprOpr::Var(Variable { tag, property: Some(PropertyKey::Label) })
}

fn key_var(tag: Option<NameOrId>, key: &str) -> Variable {
    Variable { tag, property: Some(PropertyKey::Key(name(key))) }
}

fn const_str(s: &str) -> ExprOpr {
    ExprOpr::Const(Value::Str(s.to_string()))
}

fn const_i32_at(expr: &Expression, i: usize) -> Option<i32> {
    match &expr.operators[i] {
        ExprOpr::Const(Value::I32(v)) => Some(*v),
        _ => None,
    }
}

fn key_of(var: &Variable) -> &NameOrId {
    match &var.property {
        Some(PropertyKey::Key(k)) => k,
        _ => panic!(),
    }
}

#[test]
fn test_preprocess_expression() {
    let meta = store();
    let mut plan_meta = PlanMeta::default();
    plan_meta.set_preprocess(true);
    plan_meta.insert_tag_node(name("a"), 1);
    plan_meta.insert_tag_node(name("b"), 2);

    // @.~label == "person"
    let mut expression = Expression { operators: vec![label_var(None), ExprOpr::Logical(0), const_str("person")] };
    preprocess_expression(&mut expression, &meta, &mut plan_meta).unwrap();
    assert_eq!(const_i32_at(&expression, 2), Some(0));

    // (@.name == "person") && @a.~label == "knows"
    let mut expression = Expression {
        operators: vec![
            ExprOpr::Other,
            ExprOpr::Var(key_var(None, "name")),
            ExprOpr::Logical(0),
            const_str("person"),
            ExprOpr::Other,
            ExprOpr::Logical(8),
            label_var(Some(name("a"))),
            ExprOpr::Logical(0),
            const_str("knows"),
        ],
    };
    preprocess_expression(&mut expression, &meta, &mut plan_meta).unwrap();
    // person should not be mapped, as name is not a label key
    match &expression.operators[3] {
        ExprOpr::Const(Value::Str(s)) => assert_eq!(s, "person"),
        _ => panic!(),
    }
    // "knows" maps to 0
    assert_eq!(const_i32_at(&expression, 8), Some(0));
    // the current node has a new column "name", which is mapped to 1
    assert_eq!(plan_meta.get_node_meta(0).unwrap().get_columns(), &vec![NameOrId::Id(1)]);

    // @a.name == "John": name maps to 1
    let mut expression =
        Expression { operators: vec![ExprOpr::Var(key_var(Some(name("a")), "name")), ExprOpr::Logical(0), const_str("John")] };
    preprocess_expression(&mut expression, &meta, &mut plan_meta).unwrap();
    match &expression.operators[0] {
        ExprOpr::Var(var) => {
            assert_eq!(key_of(var), &NameOrId::Id(1));
            assert_eq!(var.tag, Some(name("a")));
        },
        _ => panic!(),
    }
    // node 1 with tag a has a new column "name", which is mapped to 1
    assert_eq!(plan_meta.get_node_meta(1).unwrap().get_columns(), &vec![NameOrId::Id(1)]);

    // {@a.name, @b.id}
    let mut expression =
        Expression { operators: vec![ExprOpr::VarMap(vec![key_var(Some(name("a")), "name"), key_var(Some(name("b")), "id")])] };
    preprocess_expression(&mut expression, &meta, &mut plan_meta).unwrap();
    match &expression.operators[0] {
        ExprOpr::VarMap(vars) => {
            assert_eq!(key_of(&vars[0]), &NameOrId::Id(1));
            assert_eq!(vars[0].tag, Some(name("a")));
            assert_eq!(key_of(&vars[1]), &NameOrId::Id(0));
            assert_eq!(vars[1].tag, Some(name("b")));
        },
        _ => panic!(),
    }
    assert_eq!(plan_meta.get_node_meta(0).unwrap().get_columns(), &vec![NameOrId::Id(1)]);
    assert_eq!(plan_meta.get_node_meta(2).unwrap().get_columns(), &vec![NameOrId::Id(0)]);
}

#[test]
fn preprocess_expression_records_compared_labels() {
    let meta = store();
    let mut plan_meta = PlanMeta::default();
    plan_meta.set_preprocess(true);
    plan_meta.insert_tag_node(name("a"), 1);
    let mut expression =
        Expression { operators: vec![label_var(Some(name("a"))), ExprOpr::Logical(0), const_str("software")] };
    preprocess_expression(&mut expression, &meta, &mut plan_meta).unwrap();
    assert_eq!(const_i32_at(&expression, 2), Some(1));
    assert_eq!(plan_meta.get_node_meta(1).unwrap().get_tables(), &vec![NameOrId::Id(1)]);
    // a comparison other than equality converts the name but records no table
    let mut expression = Expression { operators: vec![label_var(None), ExprOpr::Logical(1), const_str("nobody")] };
    preprocess_expression(&mut expression, &meta, &mut plan_meta).unwrap();
    assert_eq!(const_i32_at(&expression, 2), Some(i32::MIN));
    assert!(plan_meta.get_node_meta(0).is_none());
}

#[test]
fn preprocess_expression_leaves_names_without_preprocessing() {
    let meta = store();
    let mut plan_meta = PlanMeta::default();
    let mut expression = Expression { operators: vec![ExprOpr::Var(key_var(None, "age")), label_var(None), ExprOpr::Logical(0), const_str("person")] };
    preprocess_expression(&mut expression, &meta, &mut plan_meta).unwrap();
    match &expression.operators[0] {
        ExprOpr::Var(var) => assert_eq!(key_of(var), &name("age")),
        _ => panic!(),
    }
    match &expression.operators[3] {
        ExprOpr::Const(Value::Str(s)) => assert_eq!(s, "person"),
        _ => panic!(),
    }
    assert_eq!(plan_meta.get_node_meta(0).unwrap().get_columns(), &vec![name("age")]);
    assert_eq!(plan_meta.get_node_meta(0).unwrap().get_tables(), &vec![name("person")]);
}

#[test]
fn preprocess_expression_stops_at_an_unknown_tag() {
    let meta = store();
    let mut plan_meta = PlanMeta::default();
    plan_meta.set_preprocess(true);
    let mut expression = Expression {
        operators: vec![
            ExprOpr::Var(key_var(Some(name("z")), "name")),
            ExprOpr::Logical(0),
            ExprOpr::Var(key_var(None, "age")),
        ],
    };
    let r = preprocess_expression(&mut expression, &meta, &mut plan_meta);
    match r {
        Err(IrError::TagNotExist(t)) => assert_eq!(t, name("z")),
        _ => panic!(),
    }
    // the failing variable's key was converted; the items after it stay as they were
    match &expression.operators[0] {
        ExprOpr::Var(var) => assert_eq!(key_of(var), &NameOrId::Id(1)),
        _ => panic!(),
    }
    match &expression.operators[2] {
        ExprOpr::Var(var) => assert_eq!(key_of(var), &name("age")),
        _ => panic!(),
    }
    assert!(plan_meta.get_node_meta(0).is_none());
}
