use gaia_ir::gremlin::accum::{AccumFactory, Accumulator, CountAccum, ToListAccum};
use gaia_ir::gremlin::compiler::{FnGenerator, GremlinJobCompiler};
use gaia_ir::gremlin::step::{ByModulating, HasTag, IdentityStep, IdentityStepPb, SelectKey};
use gaia_ir::gremlin::traverser::{Element, Entry, FnExecError, GraphElement, TravelObject};

#[test]
fn count_accum_counts_items() {
    let factory: CountAccum<u32> = CountAccum::new();
    assert!(factory.is_associative());
    let mut counter = factory.create();
    counter.accum(7).unwrap();
    counter.accum(9).unwrap();
    assert_eq!(counter.finalize(), 2);
    assert_eq!(counter.finalize(), 0);
}

#[test]
fn to_list_accum_collects_in_order() {
    for factory in [ToListAccum::<u32>::new(), ToListAccum::<u32>::with_capacity(4)] {
        assert!(!factory.is_associative());
        let mut list = factory.create();
        list.accum(3).unwrap();
        list.accum(1).unwrap();
        list.accum(2).unwrap();
        assert_eq!(list.finalize(), vec![3, 1, 2]);
        assert!(list.finalize().is_empty());
    }
}

#[test]
fn select_key_tags() {
    assert_eq!(SelectKey::Current.get_tag(), None);
    assert_eq!(SelectKey::Tagged(3).get_tag(), Some(3));
}

#[test]
fn has_tag_keeps_its_tag() {
    let has_tag = HasTag::new(5, "filter");
    assert_eq!(has_tag.tag, 5);
}

#[test]
fn job_compiler_settings() {
    let _generator = FnGenerator::new();
    let compiler = GremlinJobCompiler::new((), 4, 2);
    assert_eq!(compiler.get_num_servers(), 4);
    assert_eq!(compiler.get_server_index(), 2);
}

#[test]
fn identity_step_keeps_properties_only_when_asked() {
    let none = IdentityStep { step: IdentityStepPb { is_all: false, properties: vec![] }, tag: Some(3) };
    let func = none.gen_map();
    assert!(func.props.is_none());
    assert_eq!(func.tag, Some(3));
    let all = IdentityStep { step: IdentityStepPb { is_all: true, properties: vec![] }, tag: None };
    assert_eq!(all.gen_map().props, Some(vec![]));
    let named = IdentityStep { step: IdentityStepPb { is_all: false, properties: vec!["name".to_string()] }, tag: None };
    let func = named.gen_map();
    assert_eq!(func.props, Some(vec!["name".to_string()]));
    assert!(func.tag.is_none());
}

fn person() -> GraphElement<i64> {
    GraphElement { id: 1, label: 10, properties: vec![("name".to_string(), 5), ("age".to_string(), 29), ("name".to_string(), 6)] }
}

fn value_of(r: Result<Entry<i64>, FnExecError>) -> TravelObject<i64> {
    match r {
        Ok(Entry::Element(Element::OutGraph(obj))) => obj,
        _ => panic!(),
    }
}

#[test]
fn modulate_by_takes_the_asked_part() {
    let element = || Entry::Element(Element::InGraph(person()));
    assert!(matches!(value_of(ByModulating::Id.modulate_by(element())), TravelObject::Value(1)));
    assert!(matches!(value_of(ByModulating::Label.modulate_by(element())), TravelObject::Value(10)));
    assert!(matches!(value_of(ByModulating::Property("age".to_string()).modulate_by(element())), TravelObject::Value(29)));
    // the first property of that name
    assert!(matches!(value_of(ByModulating::Property("name".to_string()).modulate_by(element())), TravelObject::Value(5)));
    match value_of(ByModulating::Properties("age".to_string()).modulate_by(element())) {
        TravelObject::Properties((name, v)) => {
            assert_eq!(name, "age");
            assert_eq!(v, 29);
        },
        _ => panic!(),
    }
    match value_of(ByModulating::ValueMap(vec!["age".to_string(), "name".to_string()]).modulate_by(element())) {
        TravelObject::ValueMap(pairs) => assert_eq!(pairs, vec![("age".to_string(), 29), ("name".to_string(), 5)]),
        _ => panic!(),
    }
    assert!(matches!(ByModulating::Itself.modulate_by(element()), Ok(Entry::Element(Element::InGraph(_)))));
}

#[test]
fn modulate_by_keys_and_values() {
    let pair = || Entry::Pair(Element::OutGraph(TravelObject::Count(3)), Element::OutGraph(TravelObject::Value(7i64)));
    assert!(matches!(ByModulating::Keys.modulate_by(pair()), Ok(Entry::Element(Element::OutGraph(TravelObject::Count(3))))));
    assert!(matches!(ByModulating::Values.modulate_by(pair()), Ok(Entry::Element(Element::OutGraph(TravelObject::Value(7))))));
    let group = || Entry::Group(Element::OutGraph(TravelObject::Count(1)), vec![Element::OutGraph(TravelObject::Value(2i64))]);
    assert!(matches!(ByModulating::Keys.modulate_by(group()), Ok(Entry::Element(Element::OutGraph(TravelObject::Count(1))))));
    match ByModulating::Values.modulate_by(group()) {
        Ok(Entry::Collection(vs)) => assert_eq!(vs.len(), 1),
        _ => panic!(),
    }
}

#[test]
fn modulate_by_errors() {
    let single = || Entry::Element(Element::OutGraph(TravelObject::Value(1i64)));
    assert!(matches!(ByModulating::Keys.modulate_by(single()), Err(FnExecError::NoKeys)));
    assert!(matches!(ByModulating::Values.modulate_by(single()), Err(FnExecError::NoValues)));
    assert!(matches!(ByModulating::Id.modulate_by(single()), Err(FnExecError::NotGraphElement)));
    let collection = || Entry::Collection(vec![Element::OutGraph(TravelObject::Value(1i64))]);
    assert!(matches!(ByModulating::Label.modulate_by(collection()), Err(FnExecError::NotElement)));
    assert!(matches!(ByModulating::Property("name".to_string()).modulate_by(collection()), Err(FnExecError::NotElement)));
}
