//! Preprocessing of expressions against the schema of the store: property names become column
//! ids, label names compared with a label become table ids, and the columns and tables that an
//! expression reads are recorded in the metadata of the nodes it refers to.
use vstd::prelude::*;

use crate::ir::common::{lemma_ref_insert_exists, lemma_refs_ascending_unique, lookup_key, refs_ascending, NameOrId, NameOrIdView};
use crate::ir::plan::meta::{empty_node, id_of_ref, MetaType, NodeMetaView, PlanMeta, PlanMetaView, SchemaView, StoreMeta};
use crate::ir::IrError;
use crate::assoc::lookup_name;

verus! {

/// What a variable of an expression reads of the entity it refers to: a property by its key,
/// the label, or something else (its id, its length, all its properties).
pub enum PropertyKey {
    Key(NameOrId),
    Label,
    Other,
}

/// A variable of an expression: the entity kept under `tag`, the current one where there is
/// no tag, and what it reads of it, if anything.
pub struct Variable {
    pub tag: Option<NameOrId>,
    pub property: Option<PropertyKey>,
}

/// A constant of an expression: a string, a 32-bit integer, or another kind of value.
pub enum Value {
    Str(String),
    I32(i32),
    Other,
}

/// An item of an expression, in the order it is written: a variable, a logical or comparison
/// operator by its code (equality is 0, and 0 to 5 are the comparisons), a constant, a list or
/// a map of variables, another item, or an empty one.
pub enum ExprOpr {
    Var(Variable),
    Logical(i32),
    Const(Value),
    Vars(Vec<Variable>),
    VarMap(Vec<Variable>),
    Other,
    Empty,
}

/// An expression: its items, in order.
pub struct Expression {
    pub operators: Vec<ExprOpr>,
}

/// What a property key holds, as a mathematical value.
pub enum PropertyKeyView {
    Key(NameOrIdView),
    Label,
    Other,
}

/// What a variable holds, as mathematical values.
pub struct VariableView {
    pub tag: Option<NameOrIdView>,
    pub property: Option<PropertyKeyView>,
}

/// What a constant holds, as a mathematical value.
pub enum ValueView {
    Str(Seq<char>),
    I32(i32),
    Other,
}

/// What an item of an expression holds, as a mathematical value.
pub enum ExprOprView {
    Var(VariableView),
    Logical(i32),
    Const(ValueView),
    Vars(Seq<VariableView>),
    VarMap(Seq<VariableView>),
    Other,
    Empty,
}

impl View for PropertyKey {
    type V = PropertyKeyView;

    open spec fn view(&self) -> PropertyKeyView {
        match self {
            PropertyKey::Key(k) => PropertyKeyView::Key(k@),
            PropertyKey::Label => PropertyKeyView::Label,
            PropertyKey::Other => PropertyKeyView::Other,
        }
    }
}

impl View for Variable {
    type V = VariableView;

    open spec fn view(&self) -> VariableView {
        VariableView {
            tag: match self.tag {
                Some(t) => Some(t@),
                None => None,
            },
            property: match self.property {
                Some(p) => Some(p@),
                None => None,
            },
        }
    }
}

impl View for Value {
    type V = ValueView;

    open spec fn view(&self) -> ValueView {
        match self {
            Value::Str(s) => ValueView::Str(s@),
            Value::I32(i) => ValueView::I32(*i),
            Value::Other => ValueView::Other,
        }
    }
}

/// The views of a list of variables.
pub open spec fn vars_view(vs: Seq<Variable>) -> Seq<VariableView> {
    vs.map_values(|v: Variable| v@)
}

impl View for ExprOpr {
    type V = ExprOprView;

    open spec fn view(&self) -> ExprOprView {
        match self {
            ExprOpr::Var(v) => ExprOprView::Var(v@),
            ExprOpr::Logical(l) => ExprOprView::Logical(*l),
            ExprOpr::Const(c) => ExprOprView::Const(c@),
            ExprOpr::Vars(vs) => ExprOprView::Vars(vars_view(vs@)),
            ExprOpr::VarMap(vs) => ExprOprView::VarMap(vars_view(vs@)),
            ExprOpr::Other => ExprOprView::Other,
            ExprOpr::Empty => ExprOprView::Empty,
        }
    }
}

/// The views of the items of an expression.
pub open spec fn oprs_view(s: Seq<ExprOpr>) -> Seq<ExprOprView> {
    s.map_values(|o: ExprOpr| o@)
}

impl View for Expression {
    type V = Seq<ExprOprView>;

    open spec fn view(&self) -> Seq<ExprOprView> {
        oprs_view(self.operators@)
    }
}

/// The schema of the store, as a mathematical value, where there is one.
pub open spec fn schema_of(meta: StoreMeta) -> Option<SchemaView> {
    match meta.schema {
        Some(s) => Some(s@),
        None => None,
    }
}

/// The id that stands for an unknown table or column.
pub open spec fn invalid_id() -> i32 {
    i32::MIN
}

/// A property key after preprocessing: where preprocessing is on and the schema maps columns
/// to ids, the key becomes the id of its column, or the invalid id for a name the schema does
/// not know.
pub open spec fn key_converted(schema: Option<SchemaView>, pre: bool, k: NameOrIdView) -> NameOrIdView {
    match schema {
        Some(sch) => if pre && sch.is_column_id {
            NameOrIdView::Id(
                match id_of_ref(sch.column_map, Some(k)) {
                    Some(i) => i,
                    None => invalid_id(),
                },
            )
        } else {
            k
        },
        None => k,
    }
}

/// A constant compared with a label, after preprocessing: where preprocessing is on and the
/// schema maps tables to ids, a string becomes the id of its table, or the invalid id for a
/// name the schema does not know.
pub open spec fn const_converted(schema: Option<SchemaView>, pre: bool, c: ValueView) -> ValueView {
    match schema {
        Some(sch) => if pre && sch.is_table_id {
            match c {
                ValueView::Str(name) => ValueView::I32(
                    match lookup_name(sch.table_map, name) {
                        Some(i) => i,
                        None => invalid_id(),
                    },
                ),
                _ => c,
            }
        } else {
            c
        },
        None => c,
    }
}

/// The metadata of the nodes of a plan, as mathematical values.
pub open spec fn node_views(m: PlanMetaView) -> Map<u32, NodeMetaView> {
    m.node_metas.map_values(|n: crate::ir::plan::meta::NodeMeta| n@)
}

/// The metadata of node `id`, or that of an empty entity node where there is none.
pub open spec fn node_in(nodes: Map<u32, NodeMetaView>, id: u32) -> NodeMetaView {
    if nodes.contains_key(id) {
        nodes[id]
    } else {
        empty_node(MetaType::Entity)
    }
}

/// The references of `s` with `x` added, in increasing order.
pub open spec fn ref_added(s: Seq<NameOrIdView>, x: NameOrIdView) -> Seq<NameOrIdView> {
    choose|t: Seq<NameOrIdView>| refs_ascending(t) && t.to_set() == s.to_set().insert(x)
}

/// The node metadata with column `c` recorded (`is_table` false) or table `c` recorded.
pub open spec fn node_with(n: NodeMetaView, c: NameOrIdView, is_table: bool) -> NodeMetaView {
    if is_table {
        NodeMetaView { tables: ref_added(n.tables, c), ..n }
    } else {
        NodeMetaView { columns: ref_added(n.columns, c), ..n }
    }
}

/// The node that `tag` refers to: the one it is kept under, or the current one where there
/// is no tag; none for a tag that no node is kept under.
pub open spec fn tag_target(c: PlanCtx, tag: Option<NameOrIdView>) -> Option<u32> {
    match tag {
        Some(t) => lookup_key(c.tag_nodes, t),
        None => Some(c.curr_node),
    }
}

/// What preprocessing reads of the plan metadata besides the metadata of the nodes: where
/// each tag is kept, the current node, and whether preprocessing is on.
pub struct PlanCtx {
    pub tag_nodes: Seq<(NameOrIdView, u32)>,
    pub curr_node: u32,
    pub is_preprocess: bool,
}

/// What preprocessing reads of plan metadata `m` besides the metadata of its nodes.
pub open spec fn ctx_of(m: PlanMetaView) -> PlanCtx {
    PlanCtx { tag_nodes: m.tag_nodes, curr_node: m.curr_node, is_preprocess: m.is_preprocess }
}

/// `m2` is `m` with nothing but the metadata of its nodes changed, to `nodes`.
pub open spec fn nodes_replaced(m: PlanMetaView, m2: PlanMetaView, nodes: Map<u32, NodeMetaView>) -> bool {
    &&& node_views(m2) == nodes
    &&& m2.tag_nodes == m.tag_nodes
    &&& m2.tag_ids == m.tag_ids
    &&& m2.curr_node == m.curr_node
    &&& m2.max_tag_id == m.max_tag_id
    &&& m2.is_preprocess == m.is_preprocess
    &&& m2.is_partition == m.is_partition
    &&& m2.wf()
}

/// Records column `c` (or table `c`, where `is_table`) in the node that `tag` refers to; a tag
/// that no node is kept under is an error, and then nothing changes.
fn record_at(plan_meta: &mut PlanMeta, tag: &Option<NameOrId>, c: NameOrId, is_table: bool) -> (r: Result<(), IrError>)
    requires
        old(plan_meta)@.wf(),
    ensures
        match tag_target(ctx_of(old(plan_meta)@), crate::ir::plan::meta::opt_ref_view(tag)) {
            Some(id) => r is Ok && nodes_replaced(
                old(plan_meta)@,
                final(plan_meta)@,
                node_views(old(plan_meta)@).insert(id, node_with(node_in(node_views(old(plan_meta)@), id), c@, is_table)),
            ),
            None => r is Err && (match r->Err_0 {
                IrError::TagNotExist(t) => Some(t@) == crate::ir::plan::meta::opt_ref_view(tag),
                _ => false,
            }) && final(plan_meta)@ == old(plan_meta)@,
        },
{
    let ghost m = plan_meta@;
    let ghost cv = c@;
    match plan_meta.tag_node_meta_mut(tag.as_ref()) {
        Ok(node) => {
            let ghost before = node@;
            if is_table {
                node.insert_table(c);
                proof {
                    lemma_refs_ascending_unique(node@.tables, ref_added(before.tables, cv));
                }
            } else {
                node.insert_column(c);
                proof {
                    lemma_refs_ascending_unique(node@.columns, ref_added(before.columns, cv));
                }
            }
            proof {
                let id = tag_target(ctx_of(m), crate::ir::plan::meta::opt_ref_view(tag))->0;
                assert(before == node_in(node_views(m), id));
                assert(node_views(plan_meta@) =~= node_views(m).insert(id, node_with(before, cv, is_table)));
            }
            Ok(())
        },
        Err(e) => Err(e),
    }
}

/// How preprocessing a variable ends: the variable as it becomes, the metadata of the nodes,
/// and the tag that no node is kept under, where there is one.
pub struct VarOutcome {
    pub var: VariableView,
    pub nodes: Map<u32, NodeMetaView>,
    pub failed: Option<NameOrIdView>,
}

/// Preprocessing a variable that reads a property by its key: the key is converted, and the
/// column is recorded in the node that the variable refers to.
pub open spec fn var_step(schema: Option<SchemaView>, m: PlanCtx, nodes: Map<u32, NodeMetaView>, v: VariableView) -> VarOutcome {
    match v.property {
        Some(PropertyKeyView::Key(k)) => {
            let k2 = key_converted(schema, m.is_preprocess, k);
            let v2 = VariableView { property: Some(PropertyKeyView::Key(k2)), ..v };
            match tag_target(m, v.tag) {
                Some(id) => VarOutcome { var: v2, nodes: nodes.insert(id, node_with(node_in(nodes, id), k2, false)), failed: None },
                None => VarOutcome { var: v2, nodes, failed: v.tag },
            }
        },
        _ => VarOutcome { var: v, nodes, failed: None },
    }
}

/// Whether the store's schema, where there is one, is well formed.
pub open spec fn schema_ready(meta: StoreMeta) -> bool {
    match meta.schema {
        Some(s) => s@.wf(),
        None => true,
    }
}

/// Preprocesses a variable: a property key becomes its column id where preprocessing is on
/// and the schema maps columns to ids, and the column is recorded in the node that the
/// variable refers to; a tag that no node is kept under is an error, after the key was
/// converted.
pub fn preprocess_variable(var: &mut Variable, meta: &StoreMeta, plan_meta: &mut PlanMeta) -> (r: Result<(), IrError>)
    requires
        old(plan_meta)@.wf(),
        schema_ready(*meta),
    ensures
        ({
            let o = var_step(schema_of(*meta), ctx_of(old(plan_meta)@), node_views(old(plan_meta)@), old(var)@);
            &&& final(var)@ == o.var
            &&& match o.failed {
                None => r is Ok && nodes_replaced(old(plan_meta)@, final(plan_meta)@, o.nodes),
                Some(t) => r is Err && (match r->Err_0 {
                    IrError::TagNotExist(x) => x@ == t,
                    _ => false,
                }) && final(plan_meta)@ == old(plan_meta)@,
            }
        }),
{
    let ghost m = plan_meta@;
    let key = match &var.property {
        Some(PropertyKey::Key(k)) => k.copy(),
        _ => {
            proof {
                assert(node_views(m) == node_views(plan_meta@));
            }
            return Ok(());
        },
    };
    let new_key = convert_key(key, meta, plan_meta.is_preprocess());
    var.property = Some(PropertyKey::Key(new_key.copy()));
    record_at(plan_meta, &var.tag, new_key, false)
}

/// A property key after preprocessing.
fn convert_key(key: NameOrId, meta: &StoreMeta, pre: bool) -> (k: NameOrId)
    requires
        schema_ready(*meta),
    ensures
        k@ == key_converted(schema_of(*meta), pre, key@),
{
    match &meta.schema {
        Some(schema) => {
            if pre && schema.is_column_id() {
                let id = match schema.get_column_id_from_pb(&Some(key)) {
                    Some(i) => i,
                    None => i32::MIN,
                };
                NameOrId::Id(id)
            } else {
                key
            }
        },
        None => key,
    }
}

/// A constant compared with a label, after preprocessing.
fn convert_const(c: Value, meta: &StoreMeta, pre: bool) -> (v: Value)
    requires
        schema_ready(*meta),
    ensures
        v@ == const_converted(schema_of(*meta), pre, c@),
{
    match &meta.schema {
        Some(schema) => {
            if pre && schema.is_table_id() {
                match c {
                    Value::Str(name) => {
                        let id = match schema.get_table_id(name.as_str()) {
                            Some(i) => i,
                            None => i32::MIN,
                        };
                        Value::I32(id)
                    },
                    other => other,
                }
            } else {
                c
            }
        },
        None => c,
    }
}

/// How preprocessing a list of variables ends: the variables as they become, the metadata of
/// the nodes, and the tag that no node is kept under, where there is one.
pub struct VarsOutcome {
    pub vars: Seq<VariableView>,
    pub nodes: Map<u32, NodeMetaView>,
    pub failed: Option<NameOrIdView>,
}

/// Preprocessing the first `k` variables of `vs` one after the other, up to the first that
/// fails; the variables after that one stay as they are.
pub open spec fn vars_step(schema: Option<SchemaView>, m: PlanCtx, nodes: Map<u32, NodeMetaView>, vs: Seq<VariableView>, k: nat) -> VarsOutcome
    decreases k,
{
    if k == 0 {
        VarsOutcome { vars: Seq::empty(), nodes, failed: None }
    } else {
        let r = vars_step(schema, m, nodes, vs, (k - 1) as nat);
        if r.failed is Some {
            VarsOutcome { vars: r.vars.push(vs[k - 1]), ..r }
        } else {
            let o = var_step(schema, m, r.nodes, vs[k - 1]);
            VarsOutcome { vars: r.vars.push(o.var), nodes: o.nodes, failed: o.failed }
        }
    }
}

/// How far preprocessing an expression has got: still going, stopped at a tag that no node is
/// kept under, or at a label compared with a constant that is neither a string nor a 32-bit
/// integer, where there is no table to record.
pub enum ScanEnd {
    Going,
    Failed(NameOrIdView),
    Stuck,
}

/// The state of preprocessing an expression: the items so far as they become; how much of a
/// comparison of a label has been read (1 after the label, 2 after a comparison operator); 
/// whether that comparison is an equality; the tag of the label; the metadata of the nodes;
/// and how far it has got.
pub struct Scan {
    pub oprs: Seq<ExprOprView>,
    pub count: int,
    pub is_label_eq: bool,
    pub label_tag: Option<NameOrIdView>,
    pub nodes: Map<u32, NodeMetaView>,
    pub end: ScanEnd,
}

/// The end that a failing tag, if any, gives.
pub open spec fn end_of(failed: Option<NameOrIdView>) -> ScanEnd {
    match failed {
        Some(t) => ScanEnd::Failed(t),
        None => ScanEnd::Going,
    }
}

/// The table that a preprocessed constant names.
pub open spec fn table_of(c: ValueView) -> NameOrIdView {
    match c {
        ValueView::Str(n) => NameOrIdView::Str(n),
        ValueView::I32(i) => NameOrIdView::Id(i),
        ValueView::Other => NameOrIdView::Id(0),
    }
}

/// Preprocessing one more item of an expression.
pub open spec fn opr_step(schema: Option<SchemaView>, m: PlanCtx, st: Scan, op: ExprOprView) -> Scan {
    match op {
        ExprOprView::Var(v) => match v.property {
            Some(PropertyKeyView::Key(_)) => {
                let o = var_step(schema, m, st.nodes, v);
                Scan { oprs: st.oprs.push(ExprOprView::Var(o.var)), count: 0, nodes: o.nodes, end: end_of(o.failed), ..st }
            },
            Some(PropertyKeyView::Label) => Scan { oprs: st.oprs.push(op), count: 1, label_tag: v.tag, ..st },
            Some(PropertyKeyView::Other) => Scan { oprs: st.oprs.push(op), count: 0, ..st },
            None => Scan { oprs: st.oprs.push(op), ..st },
        },
        ExprOprView::Logical(l) => if st.count == 1 {
            Scan {
                oprs: st.oprs.push(op),
                count: if 0 <= l <= 5 { 2 } else { 1 },
                is_label_eq: if l == 0 { true } else { st.is_label_eq },
                ..st
            }
        } else {
            Scan { oprs: st.oprs.push(op), count: 0, ..st }
        },
        ExprOprView::Const(c) => if st.count == 2 {
            let c2 = const_converted(schema, m.is_preprocess, c);
            if !st.is_label_eq {
                Scan { oprs: st.oprs.push(ExprOprView::Const(c2)), count: 0, ..st }
            } else if c2 is Other {
                Scan { oprs: st.oprs.push(ExprOprView::Const(c2)), end: ScanEnd::Stuck, ..st }
            } else {
                match tag_target(m, st.label_tag) {
                    Some(id) => Scan {
                        oprs: st.oprs.push(ExprOprView::Const(c2)),
                        count: 0,
                        is_label_eq: false,
                        nodes: st.nodes.insert(id, node_with(node_in(st.nodes, id), table_of(c2), true)),
                        ..st
                    },
                    None => Scan { oprs: st.oprs.push(ExprOprView::Const(c2)), end: ScanEnd::Failed(st.label_tag->0), ..st },
                }
            }
        } else {
            Scan { oprs: st.oprs.push(op), count: 0, ..st }
        },
        ExprOprView::Vars(vs) => {
            let o = vars_step(schema, m, st.nodes, vs, vs.len());
            Scan { oprs: st.oprs.push(ExprOprView::Vars(o.vars)), count: 0, nodes: o.nodes, end: end_of(o.failed), ..st }
        },
        ExprOprView::VarMap(vs) => {
            let o = vars_step(schema, m, st.nodes, vs, vs.len());
            Scan { oprs: st.oprs.push(ExprOprView::VarMap(o.vars)), count: 0, nodes: o.nodes, end: end_of(o.failed), ..st }
        },
        ExprOprView::Other => Scan { oprs: st.oprs.push(op), count: 0, ..st },
        ExprOprView::Empty => Scan { oprs: st.oprs.push(op), ..st },
    }
}

/// Preprocessing the first `k` items of an expression one after the other, against the
/// schema and the plan metadata `m`; once it has stopped, the items after stay as they are.
pub open spec fn scan(schema: Option<SchemaView>, m: PlanMetaView, ops: Seq<ExprOprView>, k: nat) -> Scan
    decreases k,
{
    if k == 0 {
        Scan { oprs: Seq::empty(), count: 0, is_label_eq: false, label_tag: None, nodes: node_views(m), end: ScanEnd::Going }
    } else {
        let r = scan(schema, m, ops, (k - 1) as nat);
        if r.end is Going {
            opr_step(schema, ctx_of(m), r, ops[k - 1])
        } else {
            Scan { oprs: r.oprs.push(ops[k - 1]), ..r }
        }
    }
}

/// Once preprocessing a list of variables has failed, the rest of the list stays as it is.
proof fn lemma_vars_after_failure(schema: Option<SchemaView>, m: PlanCtx, nodes: Map<u32, NodeMetaView>, vs: Seq<VariableView>, j: nat, k: nat)
    requires
        j <= k <= vs.len(),
        vars_step(schema, m, nodes, vs, j).failed is Some,
    ensures
        vars_step(schema, m, nodes, vs, k).vars == vars_step(schema, m, nodes, vs, j).vars + vs.subrange(j as int, k as int),
        vars_step(schema, m, nodes, vs, k).nodes == vars_step(schema, m, nodes, vs, j).nodes,
        vars_step(schema, m, nodes, vs, k).failed == vars_step(schema, m, nodes, vs, j).failed,
    decreases k - j,
{
    if j < k {
        lemma_vars_after_failure(schema, m, nodes, vs, j, (k - 1) as nat);
        let a = vars_step(schema, m, nodes, vs, j).vars;
        assert(a + vs.subrange(j as int, k as int) =~= (a + vs.subrange(j as int, k - 1)).push(vs[k - 1]));
    } else {
        assert(vs.subrange(j as int, k as int) =~= Seq::<VariableView>::empty());
        assert(vars_step(schema, m, nodes, vs, j).vars + Seq::<VariableView>::empty() =~= vars_step(schema, m, nodes, vs, j).vars);
    }
}

/// Once preprocessing an expression has stopped, the rest of its items stay as they are.
proof fn lemma_scan_after_end(schema: Option<SchemaView>, m: PlanMetaView, ops: Seq<ExprOprView>, j: nat, k: nat)
    requires
        j <= k <= ops.len(),
        !(scan(schema, m, ops, j).end is Going),
    ensures
        scan(schema, m, ops, k).oprs == scan(schema, m, ops, j).oprs + ops.subrange(j as int, k as int),
        scan(schema, m, ops, k).nodes == scan(schema, m, ops, j).nodes,
        scan(schema, m, ops, k).end == scan(schema, m, ops, j).end,
    decreases k - j,
{
    if j < k {
        lemma_scan_after_end(schema, m, ops, j, (k - 1) as nat);
        let a = scan(schema, m, ops, j).oprs;
        assert(a + ops.subrange(j as int, k as int) =~= (a + ops.subrange(j as int, k - 1)).push(ops[k - 1]));
    } else {
        assert(scan(schema, m, ops, j).oprs + ops.subrange(j as int, k as int) =~= scan(schema, m, ops, j).oprs);
    }
}

/// Whether `r` is the error for a tag whose view is `t`.
pub open spec fn is_tag_error(r: Result<(), IrError>, t: NameOrIdView) -> bool {
    r is Err && match r->Err_0 {
        IrError::TagNotExist(x) => x@ == t,
        _ => false,
    }
}

/// Preprocesses a list of variables one after the other, up to the first that fails.
fn preprocess_vars(vars: Vec<Variable>, meta: &StoreMeta, plan_meta: &mut PlanMeta) -> (res: (Vec<Variable>, Result<(), IrError>))
    requires
        old(plan_meta)@.wf(),
        schema_ready(*meta),
    ensures
        ({
            let o = vars_step(schema_of(*meta), ctx_of(old(plan_meta)@), node_views(old(plan_meta)@), vars_view(vars@), vars@.len());
            &&& vars_view(res.0@) == o.vars
            &&& nodes_replaced(old(plan_meta)@, final(plan_meta)@, o.nodes)
            &&& match o.failed {
                None => res.1 is Ok,
                Some(t) => is_tag_error(res.1, t),
            }
        }),
{
    let ghost m = plan_meta@;
    let ghost sch = schema_of(*meta);
    let ghost vs = vars_view(vars@);
    let n = vars.len();
    let mut rest = vars;
    let mut done: Vec<Variable> = Vec::new();
    let mut k: usize = 0;
    proof {
        assert(vars_view(rest@) =~= vs.subrange(0, n as int));
        assert(vars_view(done@) =~= Seq::<VariableView>::empty());
        assert(node_views(plan_meta@) == node_views(m));
    }
    while k < n
        invariant
            m == old(plan_meta)@,
            m.wf(),
            schema_ready(*meta),
            sch == schema_of(*meta),
            n == vs.len(),
            vs == vars_view(vars@),
            n == vars@.len(),
            k <= n,
            vars_view(rest@) == vs.subrange(k as int, n as int),
            vars_step(sch, ctx_of(m), node_views(m), vs, k as nat).failed is None,
            vars_view(done@) == vars_step(sch, ctx_of(m), node_views(m), vs, k as nat).vars,
            nodes_replaced(m, plan_meta@, vars_step(sch, ctx_of(m), node_views(m), vs, k as nat).nodes),
        decreases n - k,
    {
        let ghost before = vars_view(rest@);
        let ghost raw = rest@;
        assert(before.len() == raw.len());
        assert(before.len() == n - k);
        let mut v = rest.remove(0);
        proof {
            assert(v == raw[0]);
            assert(before[0] == raw[0]@);
            assert(before[0] == vs[k as int]);
            assert(rest@ =~= raw.subrange(1, raw.len() as int));
            assert forall|j: int| 0 <= j < rest@.len() implies #[trigger] vars_view(rest@)[j] == vs[k + 1 + j] by {
                assert(rest@[j] == raw[j + 1]);
                assert(before[j + 1] == vs[k + 1 + j]);
            }
            assert(vars_view(rest@) =~= vs.subrange(k + 1, n as int));
            assert(ctx_of(plan_meta@) == ctx_of(m));
        }
        let ghost done_before = vars_view(done@);
        let ghost prev = vars_step(sch, ctx_of(m), node_views(m), vs, k as nat);
        let ghost o = var_step(sch, ctx_of(m), prev.nodes, vs[k as int]);
        let ghost pm_before = plan_meta@;
        let r = preprocess_variable(&mut v, meta, plan_meta);
        done.push(v);
        proof {
            assert(vars_view(done@) =~= done_before.push(v@));
            let next = vars_step(sch, ctx_of(m), node_views(m), vs, (k + 1) as nat);
            assert(next.vars == prev.vars.push(o.var));
            assert(next.nodes == o.nodes);
            assert(next.failed == o.failed);
        }
        match r {
            Ok(()) => {},
            Err(e) => {
                proof {
                    assert(o.nodes == prev.nodes);
                    lemma_vars_after_failure(sch, ctx_of(m), node_views(m), vs, (k + 1) as nat, n as nat);
                }
                let ghost done_now = vars_view(done@);
                done.append(&mut rest);
                proof {
                    assert(vars_view(done@) =~= done_now + vs.subrange(k + 1, n as int));
                }
                return (done, Err(e));
            },
        }
        k = k + 1;
    }
    (done, Ok(()))
}

/// The view of an optional tag.
pub open spec fn tag_view(t: Option<NameOrId>) -> Option<NameOrIdView> {
    match t {
        Some(x) => Some(x@),
        None => None,
    }
}

/// A copy of an optional tag.
fn copy_tag(t: &Option<NameOrId>) -> (c: Option<NameOrId>)
    ensures
        tag_view(c) == tag_view(*t),
{
    match t {
        Some(x) => Some(x.copy()),
        None => None,
    }
}

/// Preprocesses one item of an expression in state `st`, which the counters hold: what it
/// gives back is the item as it becomes, and whether preprocessing goes on.
fn preprocess_opr(
    op: ExprOpr,
    meta: &StoreMeta,
    plan_meta: &mut PlanMeta,
    count: &mut u8,
    is_label_eq: &mut bool,
    label_tag: &mut Option<NameOrId>,
    Ghost(st): Ghost<Scan>,
) -> (res: (ExprOpr, Result<(), IrError>))
    requires
        old(plan_meta)@.wf(),
        schema_ready(*meta),
        st.end is Going,
        *old(count) as int == st.count,
        *old(is_label_eq) == st.is_label_eq,
        tag_view(*old(label_tag)) == st.label_tag,
        node_views(old(plan_meta)@) == st.nodes,
        !(opr_step(schema_of(*meta), ctx_of(old(plan_meta)@), st, op@).end is Stuck),
    ensures
        ({
            let o = opr_step(schema_of(*meta), ctx_of(old(plan_meta)@), st, op@);
            &&& o.oprs == st.oprs.push(res.0@)
            &&& nodes_replaced(old(plan_meta)@, final(plan_meta)@, o.nodes)
            &&& match o.end {
                ScanEnd::Going => res.1 is Ok && *final(count) as int == o.count && *final(is_label_eq) == o.is_label_eq
                    && tag_view(*final(label_tag)) == o.label_tag,
                ScanEnd::Failed(t) => is_tag_error(res.1, t),
                ScanEnd::Stuck => false,
            }
        }),
{
    let ghost m = plan_meta@;
    match op {
        ExprOpr::Var(var) => {
            let mut var = var;
            let kind: u8 = match &var.property {
                Some(PropertyKey::Key(_)) => 0,
                Some(PropertyKey::Label) => 1,
                Some(PropertyKey::Other) => 2,
                None => 3,
            };
            if kind == 0 {
                *count = 0;
                let r = preprocess_variable(&mut var, meta, plan_meta);
                (ExprOpr::Var(var), r)
            } else if kind == 1 {
                *count = 1;
                *label_tag = copy_tag(&var.tag);
                (ExprOpr::Var(var), Ok(()))
            } else if kind == 2 {
                *count = 0;
                (ExprOpr::Var(var), Ok(()))
            } else {
                (ExprOpr::Var(var), Ok(()))
            }
        },
        ExprOpr::Logical(l) => {
            if *count == 1 {
                if 0 <= l && l <= 5 {
                    *count = 2;
                }
                if l == 0 {
                    *is_label_eq = true;
                }
            } else {
                *count = 0;
            }
            (ExprOpr::Logical(l), Ok(()))
        },
        ExprOpr::Const(c) => {
            if *count == 2 {
                let c2 = convert_const(c, meta, plan_meta.is_preprocess());
                if *is_label_eq {
                    let table = match &c2 {
                        Value::Str(name) => NameOrId::Str(name.clone()),
                        Value::I32(i) => NameOrId::Id(*i),
                        Value::Other => {
                            assert(false);
                            NameOrId::Id(0)
                        },
                    };
                    let r = record_at(plan_meta, label_tag, table, true);
                    if r.is_ok() {
                        *is_label_eq = false;
                        *count = 0;
                    }
                    (ExprOpr::Const(c2), r)
                } else {
                    *count = 0;
                    (ExprOpr::Const(c2), Ok(()))
                }
            } else {
                *count = 0;
                (ExprOpr::Const(c), Ok(()))
            }
        },
        ExprOpr::Vars(vs) => {
            *count = 0;
            let (vs2, r) = preprocess_vars(vs, meta, plan_meta);
            (ExprOpr::Vars(vs2), r)
        },
        ExprOpr::VarMap(vs) => {
            *count = 0;
            let (vs2, r) = preprocess_vars(vs, meta, plan_meta);
            (ExprOpr::VarMap(vs2), r)
        },
        ExprOpr::Other => {
            *count = 0;
            (ExprOpr::Other, Ok(()))
        },
        ExprOpr::Empty => (ExprOpr::Empty, Ok(())),
    }
}

/// Preprocesses an expression against the schema of the store, item by item: the key of a
/// property that a variable reads becomes its column id, and the column is recorded in the
/// node that the variable refers to; a label compared with a constant string has the string
/// become its table id, and where the comparison is an equality the table is recorded in the
/// node that the label's variable refers to. A tag that no node is kept under is an error, and
/// preprocessing stops there, the items after it staying as they were.
pub fn preprocess_expression(expr: &mut Expression, meta: &StoreMeta, plan_meta: &mut PlanMeta) -> (r: Result<(), IrError>)
    requires
        old(plan_meta)@.wf(),
        schema_ready(*meta),
        !(scan(schema_of(*meta), old(plan_meta)@, old(expr)@, old(expr)@.len()).end is Stuck),
    ensures
        ({
            let sc = scan(schema_of(*meta), old(plan_meta)@, old(expr)@, old(expr)@.len());
            &&& final(expr)@ == sc.oprs
            &&& nodes_replaced(old(plan_meta)@, final(plan_meta)@, sc.nodes)
            &&& match sc.end {
                ScanEnd::Going => r is Ok,
                ScanEnd::Failed(t) => is_tag_error(r, t),
                ScanEnd::Stuck => false,
            }
        }),
{
    let ghost m = plan_meta@;
    let ghost ops = expr@;
    let ghost sch = schema_of(*meta);
    let n = expr.operators.len();
    let mut rest: Vec<ExprOpr> = Vec::new();
    std::mem::swap(&mut expr.operators, &mut rest);
    let mut done: Vec<ExprOpr> = Vec::new();
    let mut count: u8 = 0;
    let mut is_label_eq = false;
    let mut label_tag: Option<NameOrId> = None;
    let mut k: usize = 0;
    proof {
        assert(oprs_view(rest@) =~= ops.subrange(0, n as int));
        assert(oprs_view(done@) =~= Seq::<ExprOprView>::empty());
    }
    while k < n
        invariant
            m == old(plan_meta)@,
            ops == old(expr)@,
            m.wf(),
            schema_ready(*meta),
            sch == schema_of(*meta),
            n == ops.len(),
            k <= n,
            oprs_view(rest@) == ops.subrange(k as int, n as int),
            scan(sch, m, ops, k as nat).end is Going,
            oprs_view(done@) == scan(sch, m, ops, k as nat).oprs,
            count as int == scan(sch, m, ops, k as nat).count,
            is_label_eq == scan(sch, m, ops, k as nat).is_label_eq,
            tag_view(label_tag) == scan(sch, m, ops, k as nat).label_tag,
            nodes_replaced(m, plan_meta@, scan(sch, m, ops, k as nat).nodes),
            !(scan(sch, m, ops, n as nat).end is Stuck),
        decreases n - k,
    {
        let ghost before = oprs_view(rest@);
        let ghost raw = rest@;
        assert(before.len() == raw.len());
        let op = rest.remove(0);
        let ghost st = scan(sch, m, ops, k as nat);
        proof {
            assert(op == raw[0]);
            assert(before[0] == ops[k as int]);
            assert(rest@ =~= raw.subrange(1, raw.len() as int));
            assert forall|j: int| 0 <= j < rest@.len() implies #[trigger] oprs_view(rest@)[j] == ops[k + 1 + j] by {
                assert(rest@[j] == raw[j + 1]);
                assert(before[j + 1] == ops[k + 1 + j]);
            }
            assert(oprs_view(rest@) =~= ops.subrange(k + 1, n as int));
            assert(ctx_of(plan_meta@) == ctx_of(m));
            assert(scan(sch, m, ops, (k + 1) as nat) == opr_step(sch, ctx_of(m), st, ops[k as int]));
            if scan(sch, m, ops, (k + 1) as nat).end is Stuck {
                lemma_scan_after_end(sch, m, ops, (k + 1) as nat, n as nat);
            }
        }
        let ghost done_before = oprs_view(done@);
        let (new_op, r) = preprocess_opr(op, meta, plan_meta, &mut count, &mut is_label_eq, &mut label_tag, Ghost(st));
        done.push(new_op);
        proof {
            assert(oprs_view(done@) =~= done_before.push(new_op@));
        }
        match r {
            Ok(()) => {},
            Err(e) => {
                proof {
                    lemma_scan_after_end(sch, m, ops, (k + 1) as nat, n as nat);
                }
                let ghost done_now = oprs_view(done@);
                done.append(&mut rest);
                proof {
                    assert(oprs_view(done@) =~= done_now + ops.subrange(k + 1, n as int));
                }
                expr.operators = done;
                return Err(e);
            },
        }
        k = k + 1;
    }
    expr.operators = done;
    Ok(())
}

/// Whether variable `v` reads a property by a key.
pub open spec fn reads_key(v: VariableView) -> bool {
    v.property matches Some(PropertyKeyView::Key(_))
}

/// Every node's metadata keeps its tables and its columns in increasing order.
pub open spec fn nodes_wf(nodes: Map<u32, NodeMetaView>) -> bool {
    forall|id: u32| #[trigger] nodes.contains_key(id) ==> nodes[id].wf()
}

/// The metadata of the nodes of well-formed plan metadata keeps its lists in order.
pub proof fn lemma_node_views_wf(m: PlanMetaView)
    requires
        m.wf(),
    ensures
        nodes_wf(node_views(m)),
{
    assert forall|id: u32| #[trigger] node_views(m).contains_key(id) implies node_views(m)[id].wf() by {
        assert(m.node_metas.contains_key(id));
    }
}

/// Whether node `id` has column `x` recorded.
pub open spec fn has_column(nodes: Map<u32, NodeMetaView>, id: u32, x: NameOrIdView) -> bool {
    node_in(nodes, id).columns.to_set().contains(x)
}

/// Whether node `id` has table `x` recorded.
pub open spec fn has_table(nodes: Map<u32, NodeMetaView>, id: u32, x: NameOrIdView) -> bool {
    node_in(nodes, id).tables.to_set().contains(x)
}

/// What it means that variable `v` was preprocessed into `v2` against metadata `nodes`: a
/// variable that reads a property by a key refers to a node, now reads the converted key, and
/// that node has the converted key recorded as a column; any other variable stays as it was.
pub open spec fn var_done(schema: Option<SchemaView>, c: PlanCtx, nodes: Map<u32, NodeMetaView>, v: VariableView, v2: VariableView) -> bool {
    &&& v2.tag == v.tag
    &&& match v.property {
        Some(PropertyKeyView::Key(k)) => {
            &&& v2.property == Some(PropertyKeyView::Key(key_converted(schema, c.is_preprocess, k)))
            &&& tag_target(c, v.tag) is Some
            &&& has_column(nodes, tag_target(c, v.tag)->0, key_converted(schema, c.is_preprocess, k))
        },
        _ => v2 == v,
    }
}

/// Adding a reference to an increasing list keeps it increasing and adds just that reference.
proof fn lemma_ref_added(s: Seq<NameOrIdView>, x: NameOrIdView)
    requires
        refs_ascending(s),
    ensures
        refs_ascending(ref_added(s, x)),
        ref_added(s, x).to_set() == s.to_set().insert(x),
{
    let t = lemma_ref_insert_exists(s, x);
    assert(refs_ascending(t) && t.to_set() == s.to_set().insert(x));
}

/// The metadata of any node of well-formed metadata is well formed.
proof fn lemma_node_in_wf(nodes: Map<u32, NodeMetaView>, id: u32)
    requires
        nodes_wf(nodes),
    ensures
        node_in(nodes, id).wf(),
{
    if !nodes.contains_key(id) {
        assert(refs_ascending(Seq::<NameOrIdView>::empty()));
    }
}

/// Recording a column (or a table) in node `id` keeps the metadata well formed, adds just that
/// column (table) to that node, and changes nothing else.
proof fn lemma_record(nodes: Map<u32, NodeMetaView>, id: u32, x: NameOrIdView, is_table: bool)
    requires
        nodes_wf(nodes),
    ensures
        nodes_wf(nodes.insert(id, node_with(node_in(nodes, id), x, is_table))),
        forall|i: u32, y: NameOrIdView| #[trigger] has_column(nodes.insert(id, node_with(node_in(nodes, id), x, is_table)), i, y) <==> (
        has_column(nodes, i, y) || (!is_table && i == id && y == x)),
        forall|i: u32, y: NameOrIdView| #[trigger] has_table(nodes.insert(id, node_with(node_in(nodes, id), x, is_table)), i, y) <==> (
        has_table(nodes, i, y) || (is_table && i == id && y == x)),
{
    lemma_node_in_wf(nodes, id);
    let n = node_in(nodes, id);
    lemma_ref_added(n.columns, x);
    lemma_ref_added(n.tables, x);
    let nodes2 = nodes.insert(id, node_with(n, x, is_table));
    assert forall|i: u32, y: NameOrIdView| #[trigger] has_column(nodes2, i, y) <==> (has_column(nodes, i, y) || (!is_table && i == id && y == x)) by {
        if i != id {
            assert(node_in(nodes2, i) == node_in(nodes, i));
        }
    }
    assert forall|i: u32, y: NameOrIdView| #[trigger] has_table(nodes2, i, y) <==> (has_table(nodes, i, y) || (is_table && i == id && y == x)) by {
        if i != id {
            assert(node_in(nodes2, i) == node_in(nodes, i));
        }
    }
}

/// What preprocessing the first `k` variables of a list does: each keeps its tag; where none
/// failed, each was preprocessed as `var_done` says; where one failed, it is a variable that
/// reads a property through a tag that no node is kept under; columns already recorded stay,
/// tables are not touched, and the metadata stays well formed.
proof fn lemma_vars_step(schema: Option<SchemaView>, c: PlanCtx, nodes: Map<u32, NodeMetaView>, vs: Seq<VariableView>, k: nat)
    requires
        k <= vs.len(),
        nodes_wf(nodes),
    ensures
        ({
            let o = vars_step(schema, c, nodes, vs, k);
            &&& nodes_wf(o.nodes)
            &&& o.vars.len() == k
            &&& forall|i: int| 0 <= i < k ==> (#[trigger] o.vars[i]).tag == vs[i].tag
            &&& forall|id: u32, x: NameOrIdView| has_column(nodes, id, x) ==> #[trigger] has_column(o.nodes, id, x)
            &&& forall|id: u32, x: NameOrIdView| #[trigger] has_table(o.nodes, id, x) == has_table(nodes, id, x)
            &&& o.failed is None ==> forall|i: int| 0 <= i < k ==> var_done(schema, c, o.nodes, vs[i], #[trigger] o.vars[i])
            &&& o.failed matches Some(t) ==> exists|i: int|
                0 <= i < k && reads_key(#[trigger] vs[i]) && vs[i].tag == Some(t) && tag_target(c, vs[i].tag) is None
        }),
    decreases k,
{
    if k > 0 {
        lemma_vars_step(schema, c, nodes, vs, (k - 1) as nat);
        let r = vars_step(schema, c, nodes, vs, (k - 1) as nat);
        let o = vars_step(schema, c, nodes, vs, k);
        let v = vs[k - 1];
        if r.failed is None {
            match v.property {
                Some(PropertyKeyView::Key(kk)) => {
                    let k2 = key_converted(schema, c.is_preprocess, kk);
                    match tag_target(c, v.tag) {
                        Some(id) => {
                            lemma_record(r.nodes, id, k2, false);
                            assert forall|i: int| 0 <= i < k implies var_done(schema, c, o.nodes, vs[i], #[trigger] o.vars[i]) by {
                                if i < k - 1 {
                                    assert(o.vars[i] == r.vars[i]);
                                    assert(var_done(schema, c, r.nodes, vs[i], r.vars[i]));
                                    if let Some(PropertyKeyView::Key(kx)) = vs[i].property {
                                        let tx = tag_target(c, vs[i].tag)->0;
                                        assert(has_column(r.nodes, tx, key_converted(schema, c.is_preprocess, kx)));
                                    }
                                }
                            }
                        },
                        None => {
                            assert(v.tag is Some);
                            assert(reads_key(vs[k - 1]));
                        },
                    }
                },
                _ => {
                    assert forall|i: int| 0 <= i < k implies var_done(schema, c, o.nodes, vs[i], #[trigger] o.vars[i]) by {
                        if i < k - 1 {
                            assert(o.vars[i] == r.vars[i]);
                        }
                    }
                },
            }
        } else {
            let t = r.failed->0;
            let i = choose|i: int|
                0 <= i < k - 1 && reads_key(#[trigger] vs[i]) && vs[i].tag == Some(t) && tag_target(c, vs[i].tag) is None;
            assert(vs[i].tag == Some(t));
        }
        assert forall|i: int| 0 <= i < k implies (#[trigger] o.vars[i]).tag == vs[i].tag by {
            if i < k - 1 {
                assert(o.vars[i] == r.vars[i]);
            }
        }
    }
}

/// Preprocessing an item that is a list of variables, and one that is a map of the same
/// variables, does the same: the same variables come out, the same columns are recorded, and
/// it fails alike. Where it goes on, each variable was preprocessed as `var_done` says and the
/// columns recorded before stay; where it fails, a variable read a property through a tag that
/// no node is kept under.
pub proof fn lemma_variables_preprocessed(schema: Option<SchemaView>, c: PlanCtx, st: Scan, vs: Seq<VariableView>)
    requires
        st.end is Going,
        nodes_wf(st.nodes),
    ensures
        opr_step(schema, c, st, ExprOprView::Vars(vs)).nodes == opr_step(schema, c, st, ExprOprView::VarMap(vs)).nodes,
        opr_step(schema, c, st, ExprOprView::Vars(vs)).end == opr_step(schema, c, st, ExprOprView::VarMap(vs)).end,
        opr_step(schema, c, st, ExprOprView::Vars(vs)).oprs.len() == st.oprs.len() + 1,
        opr_step(schema, c, st, ExprOprView::VarMap(vs)).oprs.len() == st.oprs.len() + 1,
        ({
            let o = opr_step(schema, c, st, ExprOprView::Vars(vs));
            let om = opr_step(schema, c, st, ExprOprView::VarMap(vs));
            &&& o.oprs.last() is Vars
            &&& om.oprs.last() == ExprOprView::VarMap(o.oprs.last()->Vars_0)
            &&& o.oprs.last()->Vars_0.len() == vs.len()
            &&& forall|i: int| 0 <= i < vs.len() ==> (#[trigger] o.oprs.last()->Vars_0[i]).tag == vs[i].tag
            &&& forall|id: u32, x: NameOrIdView| has_column(st.nodes, id, x) ==> #[trigger] has_column(o.nodes, id, x)
            &&& o.end is Going ==> forall|i: int| 0 <= i < vs.len() ==> var_done(schema, c, o.nodes, vs[i], #[trigger] o.oprs.last()->Vars_0[i])
            &&& o.end matches ScanEnd::Failed(t) ==> exists|i: int|
                0 <= i < vs.len() && reads_key(#[trigger] vs[i]) && vs[i].tag == Some(t) && tag_target(c, vs[i].tag) is None
        }),
{
    lemma_vars_step(schema, c, st.nodes, vs, vs.len());
}

/// Preprocessing an item that is one variable: where it reads a property by a key and goes
/// on, it was preprocessed as `var_done` says; where it fails, it reads a property through a
/// tag that no node is kept under.
pub proof fn lemma_variable_preprocessed(schema: Option<SchemaView>, c: PlanCtx, st: Scan, v: VariableView)
    requires
        st.end is Going,
        nodes_wf(st.nodes),
        v.property matches Some(PropertyKeyView::Key(_)),
    ensures
        ({
            let o = opr_step(schema, c, st, ExprOprView::Var(v));
            &&& o.oprs.len() == st.oprs.len() + 1
            &&& o.oprs.last() is Var
            &&& o.count == 0
            &&& forall|id: u32, x: NameOrIdView| has_column(st.nodes, id, x) ==> #[trigger] has_column(o.nodes, id, x)
            &&& o.end is Going ==> var_done(schema, c, o.nodes, v, o.oprs.last()->Var_0)
            &&& o.end matches ScanEnd::Failed(t) ==> v.tag == Some(t) && tag_target(c, v.tag) is None
        }),
{
    let vs = seq![v];
    lemma_vars_step(schema, c, st.nodes, vs, 1);
    assert(vars_step(schema, c, st.nodes, vs, 0).vars.push(var_step(schema, c, st.nodes, v).var)[0] == var_step(schema, c, st.nodes, v).var);
}

/// A label compared with a constant, `label <op> constant`: the constant becomes its table id
/// where preprocessing converts it (a string naming a table); where the comparison is an
/// equality, the table that the constant names is recorded in the node that the label's
/// variable refers to, a tag that no node is kept under being an error; a constant that names
/// no table by a string or an id stops it. Any other comparison records nothing, unless an
/// equality on a label earlier in the expression is still waiting for its constant.
pub proof fn lemma_label_comparison_preprocessed(
    schema: Option<SchemaView>,
    c: PlanCtx,
    st: Scan,
    tag: Option<NameOrIdView>,
    op: i32,
    cv: ValueView,
)
    requires
        st.end is Going,
        nodes_wf(st.nodes),
        0 <= op <= 5,
    ensures
        ({
            let s1 = opr_step(schema, c, st, ExprOprView::Var(VariableView { tag, property: Some(PropertyKeyView::Label) }));
            let s2 = opr_step(schema, c, s1, ExprOprView::Logical(op));
            let s3 = opr_step(schema, c, s2, ExprOprView::Const(cv));
            let c2 = const_converted(schema, c.is_preprocess, cv);
            &&& s3.oprs.len() == st.oprs.len() + 3
            &&& s3.oprs.last() == ExprOprView::Const(c2)
            &&& !(op == 0 || st.is_label_eq) ==> s3.end is Going && s3.nodes == st.nodes
            &&& (op == 0 || st.is_label_eq) ==> match c2 {
                ValueView::Other => s3.end is Stuck,
                _ => match tag_target(c, tag) {
                    Some(id) => {
                        &&& s3.end is Going
                        &&& has_table(s3.nodes, id, table_of(c2))
                        &&& nodes_wf(s3.nodes)
                        &&& forall|i: u32, y: NameOrIdView| has_table(st.nodes, i, y) ==> #[trigger] has_table(s3.nodes, i, y)
                        &&& forall|i: u32, y: NameOrIdView| #[trigger] has_column(s3.nodes, i, y) == has_column(st.nodes, i, y)
                    },
                    None => s3.end == ScanEnd::Failed(tag->0) && s3.nodes == st.nodes,
                },
            }
        }),
{
    let s1 = opr_step(schema, c, st, ExprOprView::Var(VariableView { tag, property: Some(PropertyKeyView::Label) }));
    let s2 = opr_step(schema, c, s1, ExprOprView::Logical(op));
    let c2 = const_converted(schema, c.is_preprocess, cv);
    assert(s1.count == 1 && s1.label_tag == tag);
    assert(s2.count == 2);
    if (op == 0 || st.is_label_eq) && !(c2 is Other) {
        if let Some(id) = tag_target(c, tag) {
            lemma_record(st.nodes, id, table_of(c2), true);
        }
    }
}

/// Where preprocessing is on and the schema maps columns to ids, a property key given by name
/// becomes the id of that column, or the invalid id where the schema has no such column, and
/// a key given by id stays; otherwise every key stays as it is.
pub proof fn lemma_key_conversion(schema: Option<SchemaView>, pre: bool, k: NameOrIdView)
    ensures
        (schema is Some && pre && schema->0.is_column_id) ==> key_converted(schema, pre, k) == match k {
            NameOrIdView::Str(n) => NameOrIdView::Id(
                match lookup_name(schema->0.column_map, n) {
                    Some(i) => i,
                    None => i32::MIN,
                },
            ),
            NameOrIdView::Id(i) => NameOrIdView::Id(i),
        },
        !(schema is Some && pre && schema->0.is_column_id) ==> key_converted(schema, pre, k) == k,
{
}

/// Where preprocessing is on and the schema maps tables to ids, a string constant becomes the
/// id of the table of that name, or the invalid id where the schema has no such table; any
/// other constant, and every constant otherwise, stays as it is.
pub proof fn lemma_const_conversion(schema: Option<SchemaView>, pre: bool, c: ValueView)
    ensures
        (schema is Some && pre && schema->0.is_table_id) ==> const_converted(schema, pre, c) == match c {
            ValueView::Str(n) => ValueView::I32(
                match lookup_name(schema->0.table_map, n) {
                    Some(i) => i,
                    None => i32::MIN,
                },
            ),
            _ => c,
        },
        !(schema is Some && pre && schema->0.is_table_id) ==> const_converted(schema, pre, c) == c,
{
}

} // verus!
