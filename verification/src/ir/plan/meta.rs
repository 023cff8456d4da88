//! The schema of a graph store: which names stand for which label and property ids.
use std::collections::BTreeMap;
use vstd::prelude::*;

use crate::assoc::{find_name, has_name, insert_name, insert_name_exec, lookup_name, names_distinct};
use crate::ir::catalogue::collections::{lemma_i32_keys_ordered, lemma_u32_keys_ordered, map_get_mut};
use crate::ir::IrError;
use crate::ir::common::{entries_view, find_key, has_key, insert_ref_sorted, keys_distinct, lookup_key, refs_ascending, refs_view, NameOrId, NameOrIdView};

verus! {

/// A name and the id it is encoded as.
#[derive(Clone, Debug)]
pub struct EntityPair {
    pub name: String,
    pub id: i32,
}

impl EntityPair {
    /// A copy of the pair.
    pub fn copy(&self) -> (pair: EntityPair)
        ensures
            pair == *self,
    {
        EntityPair { name: self.name.clone(), id: self.id }
    }
}

impl From<(String, i32)> for EntityPair {
    fn from(tuple: (String, i32)) -> (pair: Self)
        ensures
            pair.name == tuple.0,
            pair.id == tuple.1,
    {
        EntityPair { name: tuple.0, id: tuple.1 }
    }
}

impl vstd::std_specs::convert::FromSpecImpl<(String, i32)> for EntityPair {
    open spec fn obeys_from_spec() -> bool {
        true
    }

    open spec fn from_spec(v: (String, i32)) -> EntityPair {
        EntityPair { name: v.0, id: v.1 }
    }
}

/// A relation (edge label) with the entities (vertex labels) it starts from and ends at.
#[derive(Clone, Debug)]
pub struct RelationTriplet {
    pub edge: EntityPair,
    pub src: EntityPair,
    pub dst: EntityPair,
}

impl RelationTriplet {
    /// A copy of the triplet.
    pub fn copy(&self) -> (triplet: RelationTriplet)
        ensures
            triplet == *self,
    {
        RelationTriplet { edge: self.edge.copy(), src: self.src.copy(), dst: self.dst.copy() }
    }
}

impl From<(EntityPair, EntityPair, EntityPair)> for RelationTriplet {
    fn from(tuple: (EntityPair, EntityPair, EntityPair)) -> (triplet: Self)
        ensures
            triplet.edge == tuple.0,
            triplet.src == tuple.1,
            triplet.dst == tuple.2,
    {
        Self { edge: tuple.0, src: tuple.1, dst: tuple.2 }
    }
}

impl vstd::std_specs::convert::FromSpecImpl<(EntityPair, EntityPair, EntityPair)> for RelationTriplet {
    open spec fn obeys_from_spec() -> bool {
        true
    }

    open spec fn from_spec(v: (EntityPair, EntityPair, EntityPair)) -> RelationTriplet {
        RelationTriplet { edge: v.0, src: v.1, dst: v.2 }
    }
}

/// A column of a table: its name, its id and the code of its data type.
#[derive(Clone, Debug)]
pub struct Column {
    pub name: String,
    pub id: i32,
    pub data_type: i32,
}

impl Column {
    /// A copy of the column.
    pub fn copy(&self) -> (column: Column)
        ensures
            column == *self,
    {
        Column { name: self.name.clone(), id: self.id, data_type: self.data_type }
    }
}

/// What a name of the schema stands for.
#[derive(Copy, Clone, Debug, Hash, PartialEq, Eq, Structural)]
pub enum MetaType {
    Entity,
    Relation,
    Column,
}

impl Default for MetaType {
    fn default() -> (ty: Self)
        ensures
            ty == MetaType::Entity,
    {
        Self::Entity
    }
}

/// What a schema holds, as mathematical values.
pub struct SchemaView {
    pub table_map: Seq<(String, i32)>,
    pub column_map: Seq<(String, i32)>,
    pub entity_names: Map<i32, String>,
    pub relation_names: Map<i32, String>,
    pub column_names: Map<i32, String>,
    pub is_table_id: bool,
    pub is_column_id: bool,
    pub rel_entity_labels: Seq<(String, (String, String))>,
    pub rel_entity_ids: Map<i32, (i32, i32)>,
    pub entities: Seq<(EntityPair, Vec<Column>)>,
    pub rels: Seq<(RelationTriplet, Vec<Column>)>,
}

#[derive(Clone, Debug)]
pub struct Schema {
    /// A map from table name to its internally encoded id
    /// In the concept of graph database, this is also known as label
    table_map: Vec<(String, i32)>,
    /// A map from column name to its internally encoded id
    /// In the concept of graph database, this is also known as property
    column_map: Vec<(String, i32)>,
    /// The reversed maps of `table_map`, for entities and for relations, and of `column_map`
    entity_names: BTreeMap<i32, String>,
    relation_names: BTreeMap<i32, String>,
    column_names: BTreeMap<i32, String>,
    /// Is the table name mapped as id
    is_table_id: bool,
    /// Is the column name mapped as id
    is_column_id: bool,
    /// The label (string) mappings from relation to its src and dst entities
    rel_entity_labels: Vec<(String, (String, String))>,
    /// The label (id) mappings from relation to its src and dst entities
    rel_entity_ids: BTreeMap<i32, (i32, i32)>,
    /// Entities, with their columns, as a schema description listed them
    entities: Vec<(EntityPair, Vec<Column>)>,
    /// Relations, with their columns, as a schema description listed them
    rels: Vec<(RelationTriplet, Vec<Column>)>,
}

impl View for Schema {
    type V = SchemaView;

    closed spec fn view(&self) -> SchemaView {
        SchemaView {
            table_map: self.table_map@,
            column_map: self.column_map@,
            entity_names: self.entity_names@,
            relation_names: self.relation_names@,
            column_names: self.column_names@,
            is_table_id: self.is_table_id,
            is_column_id: self.is_column_id,
            rel_entity_labels: self.rel_entity_labels@,
            rel_entity_ids: self.rel_entity_ids@,
            entities: self.entities@,
            rels: self.rels@,
        }
    }
}

impl SchemaView {
    /// The name maps of a schema name each thing once.
    pub open spec fn wf(self) -> bool {
        &&& names_distinct(self.table_map)
        &&& names_distinct(self.column_map)
        &&& names_distinct(self.rel_entity_labels)
    }
}

/// The entries after storing, one after the other, each of `kvs`.
pub open spec fn insert_names<V>(s: Seq<(String, V)>, kvs: Seq<(String, V)>) -> Seq<(String, V)>
    decreases kvs.len(),
{
    if kvs.len() == 0 {
        s
    } else {
        insert_name(insert_names(s, kvs.drop_last()), kvs.last().0, kvs.last().1)
    }
}

/// The map after storing, one after the other, each of `kvs`.
pub open spec fn insert_ids<V>(m: Map<i32, V>, kvs: Seq<(i32, V)>) -> Map<i32, V>
    decreases kvs.len(),
{
    if kvs.len() == 0 {
        m
    } else {
        insert_ids(m, kvs.drop_last()).insert(kvs.last().0, kvs.last().1)
    }
}

/// An entity pair as a (name, id) entry.
pub open spec fn name_entry(p: EntityPair) -> (String, i32) {
    (p.name, p.id)
}

/// An entity pair as an (id, name) entry.
pub open spec fn id_entry(p: EntityPair) -> (i32, String) {
    (p.id, p.name)
}

/// The schema that `Schema::from` builds out of entities, relations and columns.
pub open spec fn schema_of(entities: Seq<EntityPair>, relations: Seq<RelationTriplet>, columns: Seq<EntityPair>) -> SchemaView {
    let is_table_id = entities.len() > 0 || relations.len() > 0;
    let is_column_id = columns.len() > 0;
    let edges = relations.map_values(|t: RelationTriplet| t.edge);
    SchemaView {
        table_map: if is_table_id {
            insert_names(insert_names(Seq::empty(), entities.map_values(|p: EntityPair| name_entry(p))), edges.map_values(|p: EntityPair| name_entry(p)))
        } else {
            Seq::empty()
        },
        column_map: if is_column_id {
            insert_names(Seq::empty(), columns.map_values(|p: EntityPair| name_entry(p)))
        } else {
            Seq::empty()
        },
        entity_names: if is_table_id {
            insert_ids(Map::empty(), entities.map_values(|p: EntityPair| id_entry(p)))
        } else {
            Map::empty()
        },
        relation_names: if is_table_id {
            insert_ids(Map::empty(), edges.map_values(|p: EntityPair| id_entry(p)))
        } else {
            Map::empty()
        },
        column_names: if is_column_id {
            insert_ids(Map::empty(), columns.map_values(|p: EntityPair| id_entry(p)))
        } else {
            Map::empty()
        },
        is_table_id,
        is_column_id,
        rel_entity_labels: if is_table_id {
            insert_names(Seq::empty(), relations.map_values(|t: RelationTriplet| (t.edge.name, (t.src.name, t.dst.name))))
        } else {
            Seq::empty()
        },
        rel_entity_ids: if is_table_id {
            insert_ids(Map::empty(), relations.map_values(|t: RelationTriplet| (t.edge.id, (t.src.id, t.dst.id))))
        } else {
            Map::empty()
        },
        entities: Seq::empty(),
        rels: Seq::empty(),
    }
}

} // verus!

verus! {

/// Stores each (name, id) pair in turn.
fn insert_pairs(m: &mut Vec<(String, i32)>, pairs: &Vec<EntityPair>)
    requires
        names_distinct(old(m)@),
    ensures
        names_distinct(final(m)@),
        final(m)@ == insert_names(old(m)@, pairs@.map_values(|p: EntityPair| name_entry(p))),
{
    let ghost start = m@;
    let ghost kvs = pairs@.map_values(|p: EntityPair| name_entry(p));
    for i in 0..pairs.len()
        invariant
            kvs == pairs@.map_values(|p: EntityPair| name_entry(p)),
            names_distinct(m@),
            m@ == insert_names(start, kvs.take(i as int)),
    {
        let pair = pairs[i].copy();
        proof {
            assert(kvs.take(i + 1).drop_last() == kvs.take(i as int));
        }
        insert_name_exec(m, pair.name, pair.id);
    }
    proof {
        assert(kvs.take(pairs@.len() as int) == kvs);
    }
}

/// Stores each (id, name) pair in turn.
fn insert_id_names(m: &mut BTreeMap<i32, String>, pairs: &Vec<EntityPair>)
    ensures
        final(m)@ == insert_ids(old(m)@, pairs@.map_values(|p: EntityPair| id_entry(p))),
{
    broadcast use vstd::std_specs::btree::group_btree_axioms;
    proof {
        lemma_i32_keys_ordered();
    }
    let ghost start = m@;
    let ghost kvs = pairs@.map_values(|p: EntityPair| id_entry(p));
    for i in 0..pairs.len()
        invariant
            kvs == pairs@.map_values(|p: EntityPair| id_entry(p)),
            m@ == insert_ids(start, kvs.take(i as int)),
    {
        let pair = pairs[i].copy();
        proof {
            assert(kvs.take(i + 1).drop_last() == kvs.take(i as int));
        }
        m.insert(pair.id, pair.name);
    }
    proof {
        assert(kvs.take(pairs@.len() as int) == kvs);
    }
}

impl From<(Vec<EntityPair>, Vec<RelationTriplet>, Vec<EntityPair>)> for Schema {
    fn from(tuple: (Vec<EntityPair>, Vec<RelationTriplet>, Vec<EntityPair>)) -> (schema: Self)
        ensures
            schema@ == schema_of(tuple.0@, tuple.1@, tuple.2@),
            schema@.wf(),
    {
        broadcast use vstd::std_specs::btree::group_btree_axioms;
        proof {
            lemma_i32_keys_ordered();
        }
        let (entities, relations, columns) = tuple;
        let mut schema = Schema {
            table_map: Vec::new(),
            column_map: Vec::new(),
            entity_names: BTreeMap::new(),
            relation_names: BTreeMap::new(),
            column_names: BTreeMap::new(),
            is_table_id: false,
            is_column_id: false,
            rel_entity_labels: Vec::new(),
            rel_entity_ids: BTreeMap::new(),
            entities: Vec::new(),
            rels: Vec::new(),
        };
        schema.is_table_id = entities.len() > 0 || relations.len() > 0;
        schema.is_column_id = columns.len() > 0;
        let ghost triplets = relations@;
        let ghost edge_seq = triplets.map_values(|t: RelationTriplet| t.edge);
        if schema.is_table_id {
            insert_pairs(&mut schema.table_map, &entities);
            insert_id_names(&mut schema.entity_names, &entities);
            let mut edges: Vec<EntityPair> = Vec::new();
            let ghost labels_kvs = triplets.map_values(|t: RelationTriplet| (t.edge.name, (t.src.name, t.dst.name)));
            let ghost ids_kvs = triplets.map_values(|t: RelationTriplet| (t.edge.id, (t.src.id, t.dst.id)));
            let ghost tables = schema.table_map@;
            let ghost entity_names = schema.entity_names@;
            for i in 0..relations.len()
                invariant
                    schema.table_map@ == tables,
                    names_distinct(tables),
                    schema.entity_names@ == entity_names,
                    schema.relation_names@ == Map::<i32, String>::empty(),
                    schema.column_map@ == Seq::<(String, i32)>::empty(),
                    schema.column_names@ == Map::<i32, String>::empty(),
                    schema.is_table_id == (entities@.len() > 0 || relations@.len() > 0),
                    schema.is_column_id == (columns@.len() > 0),
                    triplets == relations@,
                    edge_seq == triplets.map_values(|t: RelationTriplet| t.edge),
                    labels_kvs == triplets.map_values(|t: RelationTriplet| (t.edge.name, (t.src.name, t.dst.name))),
                    ids_kvs == triplets.map_values(|t: RelationTriplet| (t.edge.id, (t.src.id, t.dst.id))),
                    edges@ == edge_seq.take(i as int),
                    names_distinct(schema.rel_entity_labels@),
                    schema.rel_entity_labels@ == insert_names(Seq::empty(), labels_kvs.take(i as int)),
                    schema.rel_entity_ids@ == insert_ids(Map::empty(), ids_kvs.take(i as int)),
            {
                let triplet = relations[i].copy();
                proof {
                    assert(labels_kvs.take(i + 1).drop_last() == labels_kvs.take(i as int));
                    assert(ids_kvs.take(i + 1).drop_last() == ids_kvs.take(i as int));
                    assert(edge_seq.take(i + 1) == edge_seq.take(i as int).push(triplet.edge));
                }
                let edge = triplet.edge.copy();
                schema.rel_entity_ids.insert(triplet.edge.id, (triplet.src.id, triplet.dst.id));
                insert_name_exec(&mut schema.rel_entity_labels, triplet.edge.name, (triplet.src.name, triplet.dst.name));
                edges.push(edge);
            }
            proof {
                assert(edge_seq.take(triplets.len() as int) == edge_seq);
                assert(labels_kvs.take(triplets.len() as int) == labels_kvs);
                assert(ids_kvs.take(triplets.len() as int) == ids_kvs);
            }
            insert_pairs(&mut schema.table_map, &edges);
            insert_id_names(&mut schema.relation_names, &edges);
        }
        if schema.is_column_id {
            insert_pairs(&mut schema.column_map, &columns);
            insert_id_names(&mut schema.column_names, &columns);
        }
        schema.entities = Vec::new();
        schema.rels = Vec::new();
        proof {
            assert(schema@.rel_entity_labels == schema_of(entities@, relations@, columns@).rel_entity_labels);
            assert(schema@.rel_entity_ids == schema_of(entities@, relations@, columns@).rel_entity_ids);
            assert(schema@.table_map == schema_of(entities@, relations@, columns@).table_map);
            assert(schema@.entities =~= Seq::empty());
            assert(schema@.rels =~= Seq::empty());
        }
        schema
    }
}

impl vstd::std_specs::convert::FromSpecImpl<(Vec<EntityPair>, Vec<RelationTriplet>, Vec<EntityPair>)> for Schema {
    open spec fn obeys_from_spec() -> bool {
        false
    }

    /// A schema whose view is built from the lists; its inner layout is left open, so no
    /// call of `from` is promised to equal it.
    open spec fn from_spec(v: (Vec<EntityPair>, Vec<RelationTriplet>, Vec<EntityPair>)) -> Schema {
        choose|s: Schema| #[trigger] s@ == schema_of(v.0@, v.1@, v.2@)
    }
}

} // verus!

verus! {

impl Schema {
    pub fn get_table_id(&self, name: &str) -> (id: Option<i32>)
        requires
            self@.wf(),
        ensures
            id == lookup_name(self@.table_map, name@),
    {
        let key = name.to_owned();
        match find_name(&self.table_map, &key) {
            Some(i) => Some(self.table_map[i].1),
            None => None,
        }
    }

    pub fn get_column_id(&self, name: &str) -> (id: Option<i32>)
        requires
            self@.wf(),
        ensures
            id == lookup_name(self@.column_map, name@),
    {
        let key = name.to_owned();
        match find_name(&self.column_map, &key) {
            Some(i) => Some(self.column_map[i].1),
            None => None,
        }
    }

    /// The names of the entities, of the relations or of the columns, by id.
    pub fn get_table_names(&self, ty: MetaType) -> (names: &BTreeMap<i32, String>)
        ensures
            names@ == match ty {
                MetaType::Entity => self@.entity_names,
                MetaType::Relation => self@.relation_names,
                MetaType::Column => self@.column_names,
            },
    {
        match ty {
            MetaType::Entity => &self.entity_names,
            MetaType::Relation => &self.relation_names,
            MetaType::Column => &self.column_names,
        }
    }

    pub fn get_column_names(&self) -> (names: &BTreeMap<i32, String>)
        ensures
            names@ == self@.column_names,
    {
        &self.column_names
    }

    pub fn is_column_id(&self) -> (b: bool)
        ensures
            b == self@.is_column_id,
    {
        self.is_column_id
    }

    pub fn is_table_id(&self) -> (b: bool)
        ensures
            b == self@.is_table_id,
    {
        self.is_table_id
    }

    /// The names of the tables, with their ids, in the order they were registered.
    pub fn get_table_map(&self) -> (tables: &Vec<(String, i32)>)
        ensures
            tables@ == self@.table_map,
    {
        &self.table_map
    }

    /// The (source entity name, target entity name) of the relation called `name`.
    pub fn get_relation_entities(&self, name: &String) -> (entities: Option<(String, String)>)
        requires
            self@.wf(),
        ensures
            entities == lookup_name(self@.rel_entity_labels, name@),
    {
        match find_name(&self.rel_entity_labels, name) {
            Some(i) => {
                let (src, dst) = &self.rel_entity_labels[i].1;
                Some((src.clone(), dst.clone()))
            },
            None => None,
        }
    }
}

/// The metadata of the store that queries are planned against.
#[derive(Clone, Debug)]
pub struct StoreMeta {
    pub schema: Option<Schema>,
}

impl Default for StoreMeta {
    fn default() -> (meta: Self)
        ensures
            meta.schema is None,
    {
        StoreMeta { schema: None }
    }
}

/// Keeps the schema read from JSON, where reading it succeeded; otherwise the metadata stays
/// as it was.
pub fn set_schema_from_json(meta: &mut StoreMeta, schema: Option<Schema>)
    ensures
        match schema {
            Some(s) => final(meta).schema == Some(s),
            None => final(meta).schema == old(meta).schema,
        },
{
    if let Some(schema) = schema {
        meta.schema = Some(schema);
    }
}

/// The simple schema, mapping either label or property name into id.
pub fn set_schema_simple(meta: &mut StoreMeta, entities: Vec<EntityPair>, relations: Vec<RelationTriplet>, columns: Vec<EntityPair>)
    ensures
        final(meta).schema is Some,
        final(meta).schema->0@ == schema_of(entities@, relations@, columns@),
        final(meta).schema->0@.wf(),
{
    let schema = Schema::from((entities, relations, columns));
    meta.schema = Some(schema);
}

/// Forgets the schema.
pub fn reset_schema(meta: &mut StoreMeta)
    ensures
        final(meta).schema is None,
{
    meta.schema = None;
}

} // verus!

verus! {

/// The id that a reference to a table or column stands for: an id stands for itself, a name
/// for the id `names` maps it to, and a missing reference for none.
pub open spec fn id_of_ref(names: Seq<(String, i32)>, name: Option<NameOrIdView>) -> Option<i32> {
    match name {
        Some(NameOrIdView::Str(s)) => lookup_name(names, s),
        Some(NameOrIdView::Id(i)) => Some(i),
        None => None,
    }
}

/// The view of an optional reference.
pub open spec fn opt_ref_view(name: &Option<NameOrId>) -> Option<NameOrIdView> {
    match name {
        Some(n) => Some(n@),
        None => None,
    }
}

impl Schema {
    /// The table id that a reference of a plan message stands for.
    pub fn get_table_id_from_pb(&self, name: &Option<NameOrId>) -> (id: Option<i32>)
        requires
            self@.wf(),
        ensures
            id == id_of_ref(self@.table_map, opt_ref_view(name)),
    {
        match name {
            Some(NameOrId::Str(s)) => self.get_table_id(s.as_str()),
            Some(NameOrId::Id(i)) => Some(*i),
            None => None,
        }
    }

    /// The column id that a reference of a plan message stands for.
    pub fn get_column_id_from_pb(&self, name: &Option<NameOrId>) -> (id: Option<i32>)
        requires
            self@.wf(),
        ensures
            id == id_of_ref(self@.column_map, opt_ref_view(name)),
    {
        match name {
            Some(NameOrId::Str(s)) => self.get_column_id(s.as_str()),
            Some(NameOrId::Id(i)) => Some(*i),
            None => None,
        }
    }

    /// The source and target entity tables of a relation table, by name where the relation is
    /// given by name and by id where it is given by id.
    pub fn get_entity_tables(&self, rel_table: &NameOrId) -> (tables: Option<(NameOrId, NameOrId)>)
        requires
            self@.wf(),
        ensures
            match rel_table@ {
                NameOrIdView::Str(name) => match lookup_name(self@.rel_entity_labels, name) {
                    Some(labels) => tables is Some && tables.unwrap().0@ == NameOrIdView::Str(labels.0@)
                        && tables.unwrap().1@ == NameOrIdView::Str(labels.1@),
                    None => tables is None,
                },
                NameOrIdView::Id(id) => if self@.rel_entity_ids.contains_key(id) {
                    tables is Some && tables.unwrap().0@ == NameOrIdView::Id(self@.rel_entity_ids[id].0)
                        && tables.unwrap().1@ == NameOrIdView::Id(self@.rel_entity_ids[id].1)
                } else {
                    tables is None
                },
            },
    {
        broadcast use vstd::std_specs::btree::group_btree_axioms;
        proof {
            lemma_i32_keys_ordered();
        }
        match rel_table {
            NameOrId::Str(name) => match self.get_relation_entities(name) {
                Some((src, dst)) => Some((NameOrId::Str(src), NameOrId::Str(dst))),
                None => None,
            },
            NameOrId::Id(id) => match self.rel_entity_ids.get(id) {
                Some(ids) => Some((NameOrId::Id(ids.0), NameOrId::Id(ids.1))),
                None => None,
            },
        }
    }
}

} // verus!

verus! {

/// What a node of a logical plan holds, as mathematical values.
pub struct NodeMetaView {
    pub meta_type: MetaType,
    pub tables: Seq<NameOrIdView>,
    pub columns: Seq<NameOrIdView>,
}

/// Record the runtime schema of the node in the logical plan, for it being the vertex/edge
#[derive(Debug)]
pub struct NodeMeta {
    /// Mostly record whether entity (vertex) or relation (edge) this node obtains
    meta_type: MetaType,
    /// The table names (labels), each once, in increasing order
    tables: Vec<NameOrId>,
    /// The required columns (columns), each once, in increasing order
    columns: Vec<NameOrId>,
}

impl View for NodeMeta {
    type V = NodeMetaView;

    closed spec fn view(&self) -> NodeMetaView {
        NodeMetaView { meta_type: self.meta_type, tables: refs_view(self.tables@), columns: refs_view(self.columns@) }
    }
}

impl NodeMetaView {
    /// The tables and the columns each come in increasing order, so none occurs twice.
    pub open spec fn wf(self) -> bool {
        refs_ascending(self.tables) && refs_ascending(self.columns)
    }
}

/// The node of the given type with no tables and no columns.
pub open spec fn empty_node(meta_type: MetaType) -> NodeMetaView {
    NodeMetaView { meta_type, tables: Seq::empty(), columns: Seq::empty() }
}

impl Default for NodeMeta {
    fn default() -> (node: Self)
        ensures
            node@ == empty_node(MetaType::Entity),
            node@.wf(),
    {
        let node = NodeMeta { meta_type: MetaType::Entity, tables: Vec::new(), columns: Vec::new() };
        assert(refs_view(node.tables@) =~= Seq::empty());
        assert(refs_view(node.columns@) =~= Seq::empty());
        node
    }
}

impl NodeMeta {
    pub fn new(meta_type: MetaType) -> (node: NodeMeta)
        ensures
            node@ == empty_node(meta_type),
            node@.wf(),
    {
        let mut schema = NodeMeta::default();
        schema.meta_type = meta_type;
        schema
    }

    pub fn set_meta_type(&mut self, ty: MetaType)
        ensures
            final(self)@ == (NodeMetaView { meta_type: ty, ..old(self)@ }),
    {
        self.meta_type = ty;
    }

    pub fn get_meta_type(&self) -> (ty: MetaType)
        ensures
            ty == self@.meta_type,
    {
        self.meta_type
    }

    pub fn insert_column(&mut self, col: NameOrId)
        requires
            old(self)@.wf(),
        ensures
            final(self)@.meta_type == old(self)@.meta_type,
            final(self)@.tables == old(self)@.tables,
            final(self)@.columns.to_set() == old(self)@.columns.to_set().insert(col@),
            final(self)@.wf(),
    {
        insert_ref_sorted(&mut self.columns, col);
    }

    pub fn get_columns(&self) -> (columns: &Vec<NameOrId>)
        ensures
            refs_view(columns@) == self@.columns,
    {
        &self.columns
    }

    pub fn insert_table(&mut self, table: NameOrId)
        requires
            old(self)@.wf(),
        ensures
            final(self)@.meta_type == old(self)@.meta_type,
            final(self)@.columns == old(self)@.columns,
            final(self)@.tables.to_set() == old(self)@.tables.to_set().insert(table@),
            final(self)@.wf(),
    {
        insert_ref_sorted(&mut self.tables, table);
    }

    pub fn get_tables(&self) -> (tables: &Vec<NameOrId>)
        ensures
            refs_view(tables@) == self@.tables,
    {
        &self.tables
    }
}

} // verus!

verus! {

/// What the metadata of a logical plan holds, as mathematical values.
pub struct PlanMetaView {
    pub node_metas: Map<u32, NodeMeta>,
    pub tag_nodes: Seq<(NameOrIdView, u32)>,
    pub tag_ids: Seq<(NameOrIdView, NameOrId)>,
    pub curr_node: u32,
    pub max_tag_id: u32,
    pub is_preprocess: bool,
    pub is_partition: bool,
}

/// Whether `x` is an id below `bound`, read as an unsigned number.
pub open spec fn assigned_id_below(x: NameOrIdView, bound: u32) -> bool {
    match x {
        NameOrIdView::Id(v) => (v as u32) < bound,
        NameOrIdView::Str(_) => false,
    }
}

impl PlanMetaView {
    /// Every node's metadata is well formed, a tag is kept under one node and mapped to one
    /// internal id, and the internal ids are distinct ids, each below the next one to assign.
    pub open spec fn wf(self) -> bool {
        &&& forall|k: u32| #[trigger] self.node_metas.contains_key(k) ==> self.node_metas[k]@.wf()
        &&& keys_distinct(self.tag_nodes)
        &&& keys_distinct(self.tag_ids)
        &&& forall|j: int| 0 <= j < self.tag_ids.len() ==> assigned_id_below((#[trigger] self.tag_ids[j]).1@, self.max_tag_id)
        &&& forall|i: int, j: int| 0 <= i < j < self.tag_ids.len() ==> (#[trigger] self.tag_ids[i]).1@ != (#[trigger] self.tag_ids[j]).1@
    }

    /// The metadata of node `id`: the one stored, or an empty entity node where there is none.
    pub open spec fn node_or_empty(self, id: u32) -> NodeMetaView {
        if self.node_metas.contains_key(id) {
            self.node_metas[id]@
        } else {
            empty_node(MetaType::Entity)
        }
    }
}

/// To record any tag-related data while processing the logical plan
#[derive(Debug)]
pub struct PlanMeta {
    /// All possible tables/columns of each node, which is typically referred from a tag
    node_metas: BTreeMap<u32, NodeMeta>,
    /// The node that each tag refers to, each tag once
    tag_nodes: Vec<(NameOrId, u32)>,
    /// The internal id that each tag is transformed to, each tag once
    tag_ids: Vec<(NameOrId, NameOrId)>,
    /// The current node's id in the logical plan
    curr_node: u32,
    /// The next internal tag id to assign
    max_tag_id: u32,
    /// Whether to preprocess the operator
    is_preprocess: bool,
    /// Whether to partition the task
    is_partition: bool,
}

impl View for PlanMeta {
    type V = PlanMetaView;

    closed spec fn view(&self) -> PlanMetaView {
        PlanMetaView {
            node_metas: self.node_metas@,
            tag_nodes: entries_view(self.tag_nodes@),
            tag_ids: entries_view(self.tag_ids@),
            curr_node: self.curr_node,
            max_tag_id: self.max_tag_id,
            is_preprocess: self.is_preprocess,
            is_partition: self.is_partition,
        }
    }
}

/// The metadata stored under `id`, made an empty entity node first where there is none.
fn node_entry(metas: &mut BTreeMap<u32, NodeMeta>, id: u32) -> (node: &mut NodeMeta)
    ensures
        old(metas)@.contains_key(id) ==> *node == old(metas)@[id],
        !old(metas)@.contains_key(id) ==> node@ == empty_node(MetaType::Entity) && node@.wf(),
        final(metas)@ == old(metas)@.insert(id, *final(node)),
{
    broadcast use vstd::std_specs::btree::group_btree_axioms;
    proof {
        lemma_u32_keys_ordered();
    }
    if !metas.contains_key(&id) {
        metas.insert(id, NodeMeta::default());
    }
    map_get_mut(metas, id).unwrap()
}

/// The metadata of a plan that has no nodes, tags or settings yet.
pub open spec fn empty_plan_meta() -> PlanMetaView {
    PlanMetaView {
        node_metas: Map::empty(),
        tag_nodes: Seq::empty(),
        tag_ids: Seq::empty(),
        curr_node: 0,
        max_tag_id: 0,
        is_preprocess: false,
        is_partition: false,
    }
}

impl Default for PlanMeta {
    fn default() -> (plan_meta: Self)
        ensures
            plan_meta@ == empty_plan_meta(),
            plan_meta@.wf(),
    {
        broadcast use vstd::std_specs::btree::group_btree_axioms;
        let plan_meta = PlanMeta {
            node_metas: BTreeMap::new(),
            tag_nodes: Vec::new(),
            tag_ids: Vec::new(),
            curr_node: 0,
            max_tag_id: 0,
            is_preprocess: false,
            is_partition: false,
        };
        assert(plan_meta@.tag_nodes =~= Seq::<(NameOrIdView, u32)>::empty());
        assert(plan_meta@.tag_ids =~= Seq::<(NameOrIdView, NameOrId)>::empty());
        plan_meta
    }
}

impl PlanMeta {
    pub fn new(node_id: u32) -> (plan_meta: Self)
        ensures
            plan_meta@.node_metas.dom() == set![node_id],
            plan_meta@.node_metas[node_id]@ == empty_node(MetaType::Entity),
            plan_meta@.tag_nodes == Seq::<(NameOrIdView, u32)>::empty(),
            plan_meta@.tag_ids == Seq::<(NameOrIdView, NameOrId)>::empty(),
            plan_meta@.curr_node == node_id,
            plan_meta@.max_tag_id == 0,
            !plan_meta@.is_preprocess,
            !plan_meta@.is_partition,
            plan_meta@.wf(),
    {
        broadcast use vstd::std_specs::btree::group_btree_axioms;
        proof {
            lemma_u32_keys_ordered();
        }
        let mut node_metas: BTreeMap<u32, NodeMeta> = BTreeMap::new();
        node_metas.insert(node_id, NodeMeta::default());
        let plan_meta = PlanMeta {
            node_metas,
            tag_nodes: Vec::new(),
            tag_ids: Vec::new(),
            curr_node: node_id,
            max_tag_id: 0,
            is_preprocess: false,
            is_partition: false,
        };
        assert(plan_meta@.node_metas.dom() =~= set![node_id]);
        assert(plan_meta@.tag_nodes =~= Seq::<(NameOrIdView, u32)>::empty());
        assert(plan_meta@.tag_ids =~= Seq::<(NameOrIdView, NameOrId)>::empty());
        plan_meta
    }

    /// The metadata of the current node, made an empty entity node first where there is none.
    pub fn curr_node_meta_mut(&mut self) -> (node: &mut NodeMeta)
        requires
            old(self)@.wf(),
        ensures
            node@ == old(self)@.node_or_empty(old(self)@.curr_node),
            node@.wf(),
            final(self)@ == (PlanMetaView {
                node_metas: old(self)@.node_metas.insert(old(self)@.curr_node, *final(node)),
                ..old(self)@
            }),
    {
        let curr = self.curr_node;
        node_entry(&mut self.node_metas, curr)
    }

    /// The metadata of the node that `tag_opt` is kept under, or of the current node where no
    /// tag is given; a tag that no node is kept under is an error.
    pub fn tag_node_meta_mut(&mut self, tag_opt: Option<&NameOrId>) -> (r: Result<&mut NodeMeta, IrError>)
        requires
            old(self)@.wf(),
        ensures
            match tag_opt {
                Some(tag) => match lookup_key(old(self)@.tag_nodes, tag@) {
                    Some(id) => r is Ok && r->Ok_0@ == old(self)@.node_or_empty(id) && r->Ok_0@.wf()
                        && final(self)@ == (PlanMetaView {
                            node_metas: old(self)@.node_metas.insert(id, *final(r->Ok_0)),
                            ..old(self)@
                        }),
                    None => r is Err && (match r->Err_0 {
                        IrError::TagNotExist(t) => t@ == tag@,
                        _ => false,
                    }) && final(self)@ == old(self)@,
                },
                None => r is Ok && r->Ok_0@ == old(self)@.node_or_empty(old(self)@.curr_node) && r->Ok_0@.wf()
                    && final(self)@ == (PlanMetaView {
                        node_metas: old(self)@.node_metas.insert(old(self)@.curr_node, *final(r->Ok_0)),
                        ..old(self)@
                    }),
            },
    {
        match tag_opt {
            Some(tag) => match find_key(&self.tag_nodes, tag) {
                Some(i) => {
                    let node_id = self.tag_nodes[i].1;
                    Ok(node_entry(&mut self.node_metas, node_id))
                },
                None => Err(IrError::TagNotExist(tag.copy())),
            },
            None => Ok(self.curr_node_meta_mut()),
        }
    }

    pub fn get_node_meta(&self, id: u32) -> (node: Option<&NodeMeta>)
        ensures
            node == (if self@.node_metas.contains_key(id) {
                Some(&self@.node_metas[id])
            } else {
                None
            }),
    {
        broadcast use vstd::std_specs::btree::group_btree_axioms;
        proof {
            lemma_u32_keys_ordered();
        }
        self.node_metas.get(&id)
    }

    pub fn get_all_node_metas(&self) -> (metas: &BTreeMap<u32, NodeMeta>)
        ensures
            metas@ == self@.node_metas,
    {
        &self.node_metas
    }

    pub fn curr_node_meta(&self) -> (node: Option<&NodeMeta>)
        ensures
            node == (if self@.node_metas.contains_key(self@.curr_node) {
                Some(&self@.node_metas[self@.curr_node])
            } else {
                None
            }),
    {
        self.get_node_meta(self.curr_node)
    }

    /// Keeps `tag` under `node`, unless the tag is kept under a node already.
    pub fn insert_tag_node(&mut self, tag: NameOrId, node: u32)
        requires
            old(self)@.wf(),
        ensures
            final(self)@ == (PlanMetaView {
                tag_nodes: if has_key(old(self)@.tag_nodes, tag@) {
                    old(self)@.tag_nodes
                } else {
                    old(self)@.tag_nodes.push((tag@, node))
                },
                ..old(self)@
            }),
            final(self)@.wf(),
    {
        match find_key(&self.tag_nodes, &tag) {
            Some(_) => {},
            None => {
                let ghost before = self.tag_nodes@;
                self.tag_nodes.push((tag, node));
                proof {
                    assert(entries_view(self.tag_nodes@) =~= entries_view(before).push((tag@, node)));
                    assert forall|i: int| 0 <= i < entries_view(before).len() implies #[trigger] entries_view(before)[i].0 != tag@ by {
                        assert(!has_key(entries_view(before), tag@));
                    }
                }
            },
        }
    }

    /// The node that `tag` is kept under.
    pub fn get_tag_node(&self, tag: &NameOrId) -> (node: Option<u32>)
        requires
            self@.wf(),
        ensures
            node == lookup_key(self@.tag_nodes, tag@),
    {
        match find_key(&self.tag_nodes, tag) {
            Some(i) => Some(self.tag_nodes[i].1),
            None => None,
        }
    }

    pub fn get_all_tag_nodes(&self) -> (tag_nodes: &Vec<(NameOrId, u32)>)
        ensures
            entries_view(tag_nodes@) == self@.tag_nodes,
    {
        &self.tag_nodes
    }

    /// The internal id of `tag`: the one it was given before, or else the next id to assign,
    /// which it is given from now on.
    pub fn get_or_set_tag_id(&mut self, tag: NameOrId) -> (id: &NameOrId)
        requires
            old(self)@.wf(),
            !has_key(old(self)@.tag_ids, tag@) ==> old(self)@.max_tag_id < u32::MAX,
        ensures
            match lookup_key(old(self)@.tag_ids, tag@) {
                Some(given) => id@ == given@ && final(self)@ == old(self)@,
                None => id@ == NameOrIdView::Id(old(self)@.max_tag_id as i32) && final(self)@ == (PlanMetaView {
                    tag_ids: old(self)@.tag_ids.push((tag@, *id)),
                    max_tag_id: (old(self)@.max_tag_id + 1) as u32,
                    ..old(self)@
                }),
            },
            final(self)@.wf(),
    {
        match find_key(&self.tag_ids, &tag) {
            Some(i) => &self.tag_ids[i].1,
            None => {
                let ghost before = self.tag_ids@;
                let max = self.max_tag_id;
                let new_tag_id = NameOrId::Id(max as i32);
                proof {
                    assert(((max as i32) as u32) == max) by (bit_vector);
                    assert forall|j: int| 0 <= j < entries_view(before).len() implies #[trigger] entries_view(before)[j].0 != tag@ by {
                        assert(!has_key(entries_view(before), tag@));
                    }
                    assert forall|j: int| 0 <= j < entries_view(before).len() implies (#[trigger] entries_view(before)[j]).1@ != new_tag_id@ by {
                        assert(assigned_id_below(entries_view(before)[j].1@, max));
                    }
                }
                self.tag_ids.push((tag, new_tag_id));
                self.max_tag_id = max + 1;
                let n = self.tag_ids.len() - 1;
                proof {
                    assert(entries_view(self.tag_ids@) =~= entries_view(before).push((self.tag_ids@[n as int].0@, self.tag_ids@[n as int].1)));
                    assert forall|j: int| 0 <= j < entries_view(self.tag_ids@).len() implies assigned_id_below((#[trigger] entries_view(self.tag_ids@)[j]).1@, self.max_tag_id) by {
                        if j < n {
                            assert(assigned_id_below(entries_view(before)[j].1@, max));
                        }
                    }
                }
                &self.tag_ids[n].1
            },
        }
    }

    pub fn set_curr_node(&mut self, curr_node: u32)
        ensures
            final(self)@ == (PlanMetaView { curr_node, ..old(self)@ }),
    {
        self.curr_node = curr_node;
    }

    pub fn get_curr_node(&self) -> (curr_node: u32)
        ensures
            curr_node == self@.curr_node,
    {
        self.curr_node
    }

    pub fn is_preprocess(&self) -> (b: bool)
        ensures
            b == self@.is_preprocess,
    {
        self.is_preprocess
    }

    pub fn set_preprocess(&mut self, is_preprocess: bool)
        ensures
            final(self)@ == (PlanMetaView { is_preprocess, ..old(self)@ }),
    {
        self.is_preprocess = is_preprocess;
    }

    pub fn is_partition(&self) -> (b: bool)
        ensures
            b == self@.is_partition,
    {
        self.is_partition
    }

    pub fn set_partition(&mut self, is_partition: bool)
        ensures
            final(self)@ == (PlanMetaView { is_partition, ..old(self)@ }),
    {
        self.is_partition = is_partition;
    }
}

/// Distinct tags of a well-formed plan are transformed to distinct internal ids.
pub proof fn lemma_tag_ids_distinct(meta: PlanMetaView, a: NameOrIdView, b: NameOrIdView)
    requires
        meta.wf(),
        a != b,
        lookup_key(meta.tag_ids, a) is Some,
        lookup_key(meta.tag_ids, b) is Some,
    ensures
        lookup_key(meta.tag_ids, a)->0@ != lookup_key(meta.tag_ids, b)->0@,
{
    let s = meta.tag_ids;
    let i = choose|i: int| 0 <= i < s.len() && (#[trigger] s[i]).0 == a;
    let j = choose|j: int| 0 <= j < s.len() && (#[trigger] s[j]).0 == b;
    assert(i != j);
    if i < j {
        assert(s[i].1@ != s[j].1@);
    } else {
        assert(s[j].1@ != s[i].1@);
    }
}

} // verus!

verus! {

/// The schema after registering a column: a name seen before keeps its first id.
pub open spec fn register_column(v: SchemaView, c: Column) -> SchemaView {
    if has_name(v.column_map, c.name@) {
        v
    } else {
        SchemaView { column_map: v.column_map.push((c.name, c.id)), column_names: v.column_names.insert(c.id, c.name), ..v }
    }
}

/// The schema after registering each of `cols` in turn.
pub open spec fn register_columns(v: SchemaView, cols: Seq<Column>) -> SchemaView
    decreases cols.len(),
{
    if cols.len() == 0 {
        v
    } else {
        register_column(register_columns(v, cols.drop_last()), cols.last())
    }
}

/// The schema after registering an entity: its name, where names are mapped and the name is
/// new, and then its columns, where columns are mapped.
pub open spec fn register_entity(v: SchemaView, e: (EntityPair, Vec<Column>)) -> SchemaView {
    let named = if v.is_table_id && !has_name(v.table_map, e.0.name@) {
        SchemaView {
            table_map: v.table_map.push((e.0.name, e.0.id)),
            entity_names: v.entity_names.insert(e.0.id, e.0.name),
            ..v
        }
    } else {
        v
    };
    if v.is_column_id {
        register_columns(named, e.1@)
    } else {
        named
    }
}

/// The schema after registering a relation: its name and the entities it connects, where
/// names are mapped and the name is new, and then its columns, where columns are mapped.
pub open spec fn register_relation(v: SchemaView, r: (RelationTriplet, Vec<Column>)) -> SchemaView {
    let t = r.0;
    let named = if v.is_table_id && !has_name(v.table_map, t.edge.name@) {
        SchemaView {
            table_map: v.table_map.push((t.edge.name, t.edge.id)),
            relation_names: v.relation_names.insert(t.edge.id, t.edge.name),
            rel_entity_ids: v.rel_entity_ids.insert(t.edge.id, (t.src.id, t.dst.id)),
            rel_entity_labels: insert_name(v.rel_entity_labels, t.edge.name, (t.src.name, t.dst.name)),
            ..v
        }
    } else {
        v
    };
    if v.is_column_id {
        register_columns(named, r.1@)
    } else {
        named
    }
}

/// The schema after registering each of `es` in turn.
pub open spec fn register_entities(v: SchemaView, es: Seq<(EntityPair, Vec<Column>)>) -> SchemaView
    decreases es.len(),
{
    if es.len() == 0 {
        v
    } else {
        register_entity(register_entities(v, es.drop_last()), es.last())
    }
}

/// The schema after registering each of `rs` in turn.
pub open spec fn register_relations(v: SchemaView, rs: Seq<(RelationTriplet, Vec<Column>)>) -> SchemaView
    decreases rs.len(),
{
    if rs.len() == 0 {
        v
    } else {
        register_relation(register_relations(v, rs.drop_last()), rs.last())
    }
}

/// The schema that a schema description builds: the entities and then the relations are
/// registered in the order listed, a name keeping the first id it was listed with.
pub open spec fn schema_from_lists(
    entities: Seq<(EntityPair, Vec<Column>)>,
    rels: Seq<(RelationTriplet, Vec<Column>)>,
    is_table_id: bool,
    is_column_id: bool,
) -> SchemaView {
    let start = SchemaView {
        table_map: Seq::empty(),
        column_map: Seq::empty(),
        entity_names: Map::empty(),
        relation_names: Map::empty(),
        column_names: Map::empty(),
        is_table_id,
        is_column_id,
        rel_entity_labels: Seq::empty(),
        rel_entity_ids: Map::empty(),
        entities,
        rels,
    };
    register_relations(register_entities(start, entities), rels)
}

/// Registering columns changes only the column maps, and changes them the same way from any
/// two schemas with the same column maps.
proof fn lemma_register_columns_frame(v: SchemaView, w: SchemaView, cols: Seq<Column>)
    requires
        v.column_map == w.column_map,
        v.column_names == w.column_names,
    ensures
        register_columns(w, cols) == (SchemaView {
            column_map: register_columns(v, cols).column_map,
            column_names: register_columns(v, cols).column_names,
            ..w
        }),
    decreases cols.len(),
{
    if cols.len() > 0 {
        lemma_register_columns_frame(v, w, cols.drop_last());
    }
}

impl Schema {
    /// Registers each column in turn.
    fn register_columns_exec(&mut self, cols: &Vec<Column>)
        requires
            old(self)@.wf(),
        ensures
            final(self)@ == register_columns(old(self)@, cols@),
            final(self)@.wf(),
    {
        broadcast use vstd::std_specs::btree::group_btree_axioms;
        proof {
            lemma_i32_keys_ordered();
        }
        let ghost start = self@;
        for i in 0..cols.len()
            invariant
                self@ == register_columns(start, cols@.take(i as int)),
                self@.wf(),
        {
            let col = cols[i].copy();
            proof {
                assert(cols@.take(i + 1).drop_last() == cols@.take(i as int));
            }
            match find_name(&self.column_map, &col.name) {
                Some(_) => {},
                None => {
                    self.column_map.push((col.name.clone(), col.id));
                    self.column_names.insert(col.id, col.name);
                },
            }
        }
        proof {
            assert(cols@.take(cols@.len() as int) == cols@);
        }
    }

    /// The schema of the entities and relations that a schema description lists, each with
    /// its columns: names are mapped to ids where `is_table_id` says so, columns where
    /// `is_column_id` says so, and a name listed twice keeps its first id.
    pub fn from_schema_lists(
        entities: Vec<(EntityPair, Vec<Column>)>,
        rels: Vec<(RelationTriplet, Vec<Column>)>,
        is_table_id: bool,
        is_column_id: bool,
    ) -> (schema: Schema)
        ensures
            schema@ == schema_from_lists(entities@, rels@, is_table_id, is_column_id),
            schema@.wf(),
    {
        broadcast use vstd::std_specs::btree::group_btree_axioms;
        proof {
            lemma_i32_keys_ordered();
        }
        let mut schema = Schema {
            table_map: Vec::new(),
            column_map: Vec::new(),
            entity_names: BTreeMap::new(),
            relation_names: BTreeMap::new(),
            column_names: BTreeMap::new(),
            is_table_id,
            is_column_id,
            rel_entity_labels: Vec::new(),
            rel_entity_ids: BTreeMap::new(),
            entities: Vec::new(),
            rels: Vec::new(),
        };
        let ghost start = SchemaView { entities: entities@, rels: rels@, ..schema@ };
        proof {
            assert(schema@.entities =~= Seq::empty());
            assert(schema@.rels =~= Seq::empty());
        }
        for i in 0..entities.len()
            invariant
                (SchemaView { entities: entities@, rels: rels@, ..schema@ }) == register_entities(start, entities@.take(i as int)),
                schema@.wf(),
                schema@.is_table_id == is_table_id,
                schema@.is_column_id == is_column_id,
                start.is_table_id == is_table_id,
                start.is_column_id == is_column_id,
        {
            let entity = entities[i].0.copy();
            proof {
                assert(entities@.take(i + 1).drop_last() == entities@.take(i as int));
            }
            if is_table_id {
                match find_name(&schema.table_map, &entity.name) {
                    Some(_) => {},
                    None => {
                        schema.table_map.push((entity.name.clone(), entity.id));
                        schema.entity_names.insert(entity.id, entity.name);
                    },
                }
            }
            if is_column_id {
                let ghost before = schema@;
                schema.register_columns_exec(&entities[i].1);
                proof {
                    lemma_register_columns_frame(before, before, entities@[i as int].1@);
                    lemma_register_columns_frame(before, SchemaView { entities: entities@, rels: rels@, ..before }, entities@[i as int].1@);
                }
            }
        }
        proof {
            assert(entities@.take(entities@.len() as int) == entities@);
        }
        let ghost middle = register_entities(start, entities@);
        for i in 0..rels.len()
            invariant
                (SchemaView { entities: entities@, rels: rels@, ..schema@ }) == register_relations(middle, rels@.take(i as int)),
                schema@.wf(),
                schema@.is_table_id == is_table_id,
                schema@.is_column_id == is_column_id,
                middle.is_table_id == is_table_id,
                middle.is_column_id == is_column_id,
        {
            let triplet = rels[i].0.copy();
            proof {
                assert(rels@.take(i + 1).drop_last() == rels@.take(i as int));
            }
            if is_table_id {
                match find_name(&schema.table_map, &triplet.edge.name) {
                    Some(_) => {},
                    None => {
                        schema.table_map.push((triplet.edge.name.clone(), triplet.edge.id));
                        schema.relation_names.insert(triplet.edge.id, triplet.edge.name.clone());
                        schema.rel_entity_ids.insert(triplet.edge.id, (triplet.src.id, triplet.dst.id));
                        insert_name_exec(&mut schema.rel_entity_labels, triplet.edge.name, (triplet.src.name, triplet.dst.name));
                    },
                }
            }
            if is_column_id {
                let ghost before = schema@;
                schema.register_columns_exec(&rels[i].1);
                proof {
                    lemma_register_columns_frame(before, before, rels@[i as int].1@);
                    lemma_register_columns_frame(before, SchemaView { entities: entities@, rels: rels@, ..before }, rels@[i as int].1@);
                }
            }
        }
        proof {
            assert(rels@.take(rels@.len() as int) == rels@);
        }
        schema.entities = entities;
        schema.rels = rels;
        schema
    }

    /// The (relation name, (source entity name, target entity name)) entries of the schema.
    pub fn get_relation_labels(&self) -> (labels: &Vec<(String, (String, String))>)
        ensures
            labels@ == self@.rel_entity_labels,
    {
        &self.rel_entity_labels
    }

    /// The entities, with their columns, that the schema description listed.
    pub fn get_entities(&self) -> (entities: &Vec<(EntityPair, Vec<Column>)>)
        ensures
            entities@ == self@.entities,
    {
        &self.entities
    }

    /// The relations, with their columns, that the schema description listed.
    pub fn get_relations(&self) -> (rels: &Vec<(RelationTriplet, Vec<Column>)>)
        ensures
            rels@ == self@.rels,
    {
        &self.rels
    }
}

} // verus!
