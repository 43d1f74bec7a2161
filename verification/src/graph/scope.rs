//! Scopes: declared tables, nodes in name order, edges in name order,
//! contracts and local limits, as canonical records.

use vstd::prelude::*;
use vstd::string::*;

use super::edge::{field_or_missing, graph_closed, parse_edge, spec_field_or_missing, spec_graph_closed, spec_parse_edge,
    Edge, EdgeModel};
use super::node::{parse_node, spec_parse_node, Node, NodeModel};
use super::{GraphRecordError, PortTable, ScopeContext};
use crate::cbor::limits::Limits;
use crate::cbor::value::{spec_lex_lt, spec_utf8, Value};
use crate::expression::model::{spec_expr_model, ExprModel};
use crate::expression::reader::spec_read_expr;
use crate::expression::{Expression, ExpressionContext};
use crate::options::{spec_parse_limits, ExecutionLimits};
use crate::types::model::PortModel;
use crate::text::same_text;

verus! {

/// A scope as mathematics.
pub struct ScopeModel {
    /// Public inputs, in name order.
    pub inputs: Seq<(Seq<char>, PortModel)>,
    /// Public outputs, in name order.
    pub outputs: Seq<(Seq<char>, PortModel)>,
    /// Loop-carried declarations, in name order.
    pub carried: Seq<(Seq<char>, PortModel)>,
    /// Nodes, in stored order.
    pub nodes: Seq<NodeModel>,
    /// Edges, in stored order.
    pub edges: Seq<EdgeModel>,
    /// Preconditions.
    pub preconditions: ExprModel,
    /// Postconditions.
    pub postconditions: ExprModel,
    /// Local limits.
    pub limits: Seq<Option<u64>>,
}

/// The fields of a scope record, in key order.
pub open spec fn spec_scope_fields() -> Seq<&'static str> {
    seq!["carried", "edges", "inputs", "limits", "nodes", "outputs", "postconditions", "preconditions"]
}

/// Reading node records in stored order.
pub open spec fn spec_parse_nodes(items: Seq<Value>, c: ScopeContext, l: Limits) -> Result<Seq<NodeModel>, GraphRecordError>
    decreases items.len(),
{
    if items.len() == 0 {
        Ok(Seq::empty())
    } else {
        match spec_parse_nodes(items.drop_last(), c, l) {
            Err(e) => Err(e),
            Ok(s) => match spec_parse_node(items.last(), c, l) {
                Err(e) => Err(e),
                Ok(n) => Ok(s.push(n)),
            },
        }
    }
}

/// Reading edge records in stored order.
pub open spec fn spec_parse_edges(items: Seq<Value>, c: ScopeContext) -> Result<Seq<EdgeModel>, GraphRecordError>
    decreases items.len(),
{
    if items.len() == 0 {
        Ok(Seq::empty())
    } else {
        match spec_parse_edges(items.drop_last(), c) {
            Err(e) => Err(e),
            Ok(s) => match spec_parse_edge(items.last(), c) {
                Err(e) => Err(e),
                Ok(x) => Ok(s.push(x)),
            },
        }
    }
}

/// Checking that names strictly increase in UTF-8 byte order: the first
/// adjacent pair that repeats a name, or that falls, is refused.
pub open spec fn spec_ids_ordered(ids: Seq<Seq<char>>, kind: &'static str) -> Result<(), GraphRecordError>
    decreases ids.len(),
{
    if ids.len() < 2 {
        Ok(())
    } else {
        match spec_ids_ordered(ids.drop_last(), kind) {
            Err(e) => Err(e),
            Ok(()) => {
                let a = spec_utf8(ids[ids.len() - 2]);
                let b = spec_utf8(ids[ids.len() - 1]);
                if a == b {
                    Err(GraphRecordError::DuplicateId(kind))
                } else if spec_lex_lt(b, a) {
                    Err(GraphRecordError::NonCanonicalOrder(kind))
                } else {
                    Ok(())
                }
            },
        }
    }
}

/// The names of node models.
pub open spec fn spec_node_ids(s: Seq<NodeModel>) -> Seq<Seq<char>> {
    s.map_values(|n: NodeModel| n.id)
}

/// The names of edge models.
pub open spec fn spec_edge_ids(s: Seq<EdgeModel>) -> Seq<Seq<char>> {
    s.map_values(|e: EdgeModel| e.0)
}

/// Reading a scope's tables, contracts and limits.
pub open spec fn spec_parse_scope_rest(es: Seq<(String, Value)>, l: Limits, nodes: Seq<NodeModel>, edges: Seq<EdgeModel>)
    -> Result<ScopeModel, GraphRecordError> {
    match spec_field_or_missing(es, "inputs") {
        Err(e) => Err(e),
        Ok(iv) => match super::spec_parse_table(iv, l) {
            Err(e) => Err(e),
            Ok(inputs) => match spec_field_or_missing(es, "outputs") {
                Err(e) => Err(e),
                Ok(ov) => match super::spec_parse_table(ov, l) {
                    Err(e) => Err(e),
                    Ok(outputs) => match spec_field_or_missing(es, "carried") {
                        Err(e) => Err(e),
                        Ok(cv) => match super::spec_parse_table(cv, l) {
                            Err(e) => Err(e),
                            Ok(carried) => match spec_field_or_missing(es, "preconditions") {
                                Err(e) => Err(e),
                                Ok(pv) => match spec_read_expr(pv, ExpressionContext::Preconditions, false) {
                                    Err(e) => Err(GraphRecordError::Expression(e)),
                                    Ok(pre) => match spec_field_or_missing(es, "postconditions") {
                                        Err(e) => Err(e),
                                        Ok(qv) => match spec_read_expr(qv, ExpressionContext::ScopePostconditions, false) {
                                            Err(e) => Err(GraphRecordError::Expression(e)),
                                            Ok(post) => match spec_field_or_missing(es, "limits") {
                                                Err(e) => Err(e),
                                                Ok(lv) => match spec_parse_limits(lv) {
                                                    Err(e) => Err(GraphRecordError::Options(e)),
                                                    Ok(lim) => Ok(ScopeModel { inputs, outputs, carried, nodes, edges,
                                                        preconditions: pre, postconditions: post, limits: lim }),
                                                },
                                            },
                                        },
                                    },
                                },
                            },
                        },
                    },
                },
            },
        },
    }
}

/// Reading a scope record in context `c`, without repairing its order: a
/// closed map; its nodes, then its edges; node names, then edge names, in
/// strictly increasing order; then its tables, contracts and limits.
pub open spec fn spec_parse_scope(v: Value, c: ScopeContext, l: Limits) -> Result<ScopeModel, GraphRecordError> {
    match spec_graph_closed(v, "scope", spec_scope_fields()) {
        Err(e) => Err(e),
        Ok(es) => match spec_field_or_missing(es, "nodes") {
            Err(e) => Err(e),
            Ok(Value::Array(ns)) => match spec_parse_nodes(ns@, c, l) {
                Err(e) => Err(e),
                Ok(nodes) => match spec_field_or_missing(es, "edges") {
                    Err(e) => Err(e),
                    Ok(Value::Array(xs)) => match spec_parse_edges(xs@, c) {
                        Err(e) => Err(e),
                        Ok(edges) => match spec_ids_ordered(spec_node_ids(nodes), "node") {
                            Err(e) => Err(e),
                            Ok(()) => match spec_ids_ordered(spec_edge_ids(edges), "edge") {
                                Err(e) => Err(e),
                                Ok(()) => spec_parse_scope_rest(es, l, nodes, edges),
                            },
                        },
                    },
                    Ok(_) => Err(GraphRecordError::InvalidShape("edges")),
                },
            },
            Ok(_) => Err(GraphRecordError::InvalidShape("nodes")),
        },
    }
}

} // verus!

verus! {

/// A failed prefix of node records fails every longer prefix alike.
proof fn lemma_nodes_err_extends(items: Seq<Value>, c: ScopeContext, l: Limits, i: int, j: int)
    requires
        0 <= i <= j <= items.len(),
        spec_parse_nodes(items.take(i), c, l) is Err,
    ensures
        spec_parse_nodes(items.take(j), c, l) == spec_parse_nodes(items.take(i), c, l),
    decreases j - i,
{
    if i < j {
        lemma_nodes_err_extends(items, c, l, i, j - 1);
        assert(items.take(j).drop_last() =~= items.take(j - 1));
    }
}

/// A failed prefix of edge records fails every longer prefix alike.
proof fn lemma_edges_err_extends(items: Seq<Value>, c: ScopeContext, i: int, j: int)
    requires
        0 <= i <= j <= items.len(),
        spec_parse_edges(items.take(i), c) is Err,
    ensures
        spec_parse_edges(items.take(j), c) == spec_parse_edges(items.take(i), c),
    decreases j - i,
{
    if i < j {
        lemma_edges_err_extends(items, c, i, j - 1);
        assert(items.take(j).drop_last() =~= items.take(j - 1));
    }
}

/// A failed prefix of names fails every longer prefix alike.
proof fn lemma_ids_err_extends(ids: Seq<Seq<char>>, kind: &'static str, i: int, j: int)
    requires
        0 <= i <= j <= ids.len(),
        spec_ids_ordered(ids.take(i), kind) is Err,
    ensures
        spec_ids_ordered(ids.take(j), kind) == spec_ids_ordered(ids.take(i), kind),
    decreases j - i,
{
    if i < j {
        lemma_ids_err_extends(ids, kind, i, j - 1);
        assert(ids.take(j).drop_last() =~= ids.take(j - 1));
    }
}

/// The models of nodes.
pub open spec fn spec_nodes_model(s: Seq<Node>) -> Seq<NodeModel> {
    s.map_values(|n: Node| n.spec_model())
}

/// The models of edges.
pub open spec fn spec_edges_model(s: Seq<Edge>) -> Seq<EdgeModel> {
    s.map_values(|e: Edge| e.spec_model())
}

/// Reads node records in stored order.
fn parse_nodes(items: &Vec<Value>, c: ScopeContext, limits: &Limits) -> (res: Result<Vec<Node>, GraphRecordError>)
    requires
        limits.spec_valid(),
    ensures
        match spec_parse_nodes(items@, c, *limits) {
            Ok(s) => res matches Ok(r) && spec_nodes_model(r@) == s,
            Err(e) => res == Err::<Vec<Node>, GraphRecordError>(e),
        },
{
    let ghost e = items@;
    let mut out: Vec<Node> = Vec::new();
    let mut i: usize = 0;
    proof {
        assert(e.take(0) =~= Seq::<Value>::empty());
        assert(spec_nodes_model(out@) =~= Seq::<NodeModel>::empty());
    }
    while i < items.len()
        invariant
            e == items@,
            limits.spec_valid(),
            i <= e.len(),
            spec_parse_nodes(e.take(i as int), c, *limits) == Ok::<Seq<NodeModel>, GraphRecordError>(spec_nodes_model(out@)),
        decreases e.len() - i,
    {
        proof {
            assert(e.take(i + 1).drop_last() =~= e.take(i as int));
            assert(e.take(i + 1).last() == e[i as int]);
        }
        let n = match parse_node(&items[i], c, limits) {
            Ok(n) => n,
            Err(x) => {
                proof {
                    lemma_nodes_err_extends(e, c, *limits, i + 1, e.len() as int);
                    assert(e.take(e.len() as int) =~= e);
                }
                return Err(x);
            },
        };
        let ghost before = out@;
        out.push(n);
        proof { assert(spec_nodes_model(out@) =~= spec_nodes_model(before).push(n.spec_model())); }
        i = i + 1;
    }
    proof { assert(e.take(e.len() as int) =~= e); }
    Ok(out)
}

/// Reads edge records in stored order.
fn parse_edges(items: &Vec<Value>, c: ScopeContext) -> (res: Result<Vec<Edge>, GraphRecordError>)
    ensures
        match spec_parse_edges(items@, c) {
            Ok(s) => res matches Ok(r) && spec_edges_model(r@) == s,
            Err(e) => res == Err::<Vec<Edge>, GraphRecordError>(e),
        },
{
    let ghost e = items@;
    let mut out: Vec<Edge> = Vec::new();
    let mut i: usize = 0;
    proof {
        assert(e.take(0) =~= Seq::<Value>::empty());
        assert(spec_edges_model(out@) =~= Seq::<EdgeModel>::empty());
    }
    while i < items.len()
        invariant
            e == items@,
            i <= e.len(),
            spec_parse_edges(e.take(i as int), c) == Ok::<Seq<EdgeModel>, GraphRecordError>(spec_edges_model(out@)),
        decreases e.len() - i,
    {
        proof {
            assert(e.take(i + 1).drop_last() =~= e.take(i as int));
            assert(e.take(i + 1).last() == e[i as int]);
        }
        let x = match parse_edge(&items[i], c) {
            Ok(x) => x,
            Err(err) => {
                proof {
                    lemma_edges_err_extends(e, c, i + 1, e.len() as int);
                    assert(e.take(e.len() as int) =~= e);
                }
                return Err(err);
            },
        };
        let ghost before = out@;
        out.push(x);
        proof { assert(spec_edges_model(out@) =~= spec_edges_model(before).push(x.spec_model())); }
        i = i + 1;
    }
    proof { assert(e.take(e.len() as int) =~= e); }
    Ok(out)
}

/// The views of names.
pub open spec fn spec_str_views(s: Seq<&str>) -> Seq<Seq<char>> {
    s.map_values(|x: &str| x@)
}

/// Checks that names strictly increase in UTF-8 byte order.
fn ids_ordered(ids: &Vec<&str>, kind: &'static str) -> (res: Result<(), GraphRecordError>)
    ensures
        res == spec_ids_ordered(spec_str_views(ids@), kind),
{
    let ghost v = spec_str_views(ids@);
    if ids.len() < 2 {
        return Ok(());
    }
    let mut i: usize = 1;
    proof {
        assert(v.take(1).len() == 1);
    }
    while i < ids.len()
        invariant
            v == spec_str_views(ids@),
            1 <= i <= ids@.len(),
            spec_ids_ordered(v.take(i as int), kind) == Ok::<(), GraphRecordError>(()),
        decreases ids@.len() - i,
    {
        let a = ids[i - 1];
        let b = ids[i];
        let ghost t = v.take(i + 1);
        proof {
            assert(t.drop_last() =~= v.take(i as int));
            assert(t[t.len() - 2] == a@);
            assert(t[t.len() - 1] == b@);
        }
        if same_text(a, b) {
            proof {
                lemma_ids_err_extends(v, kind, i + 1, v.len() as int);
                assert(v.take(v.len() as int) =~= v);
            }
            return Err(GraphRecordError::DuplicateId(kind));
        }
        proof {
            if spec_utf8(a@) == spec_utf8(b@) {
                crate::types::model::lemma_utf8_injective(a@, b@);
            }
        }
        if crate::types::reader::bytes_lt(b.as_bytes(), a.as_bytes()) {
            proof {
                lemma_ids_err_extends(v, kind, i + 1, v.len() as int);
                assert(v.take(v.len() as int) =~= v);
            }
            return Err(GraphRecordError::NonCanonicalOrder(kind));
        }
        i = i + 1;
    }
    proof { assert(v.take(v.len() as int) =~= v); }
    Ok(())
}

/// The names of nodes.
fn node_names(nodes: &Vec<Node>) -> (res: Vec<&str>)
    ensures
        spec_str_views(res@) == spec_node_ids(spec_nodes_model(nodes@)),
{
    let mut out: Vec<&str> = Vec::new();
    let mut i: usize = 0;
    while i < nodes.len()
        invariant
            i <= nodes@.len(),
            out@.len() == i,
            forall|j: int| 0 <= j < i ==> (#[trigger] out@[j])@ == nodes@[j].spec_model().id,
        decreases nodes@.len() - i,
    {
        out.push(nodes[i].id().as_str());
        i = i + 1;
    }
    proof {
        assert(spec_str_views(out@) =~= spec_node_ids(spec_nodes_model(nodes@)));
    }
    out
}

/// The names of edges.
fn edge_names(edges: &Vec<Edge>) -> (res: Vec<&str>)
    ensures
        spec_str_views(res@) == spec_edge_ids(spec_edges_model(edges@)),
{
    let mut out: Vec<&str> = Vec::new();
    let mut i: usize = 0;
    while i < edges.len()
        invariant
            i <= edges@.len(),
            out@.len() == i,
            forall|j: int| 0 <= j < i ==> (#[trigger] out@[j])@ == edges@[j].spec_model().0,
        decreases edges@.len() - i,
    {
        out.push(edges[i].id().as_str());
        i = i + 1;
    }
    proof {
        assert(spec_str_views(out@) =~= spec_edge_ids(spec_edges_model(edges@)));
    }
    out
}

} // verus!

verus! {

use crate::expression::reader::parse_expr;

/// Authored scope fields.
#[derive(Debug)]
pub struct ScopeFields {
    /// Public inputs.
    pub inputs: PortTable,
    /// Public outputs.
    pub outputs: PortTable,
    /// Loop-carried declarations; empty in ordinary scopes.
    pub carried: PortTable,
    /// Nodes.
    pub nodes: Vec<Node>,
    /// Edges.
    pub edges: Vec<Edge>,
    /// Scope input precondition.
    pub preconditions: Expression,
    /// Scope completion postcondition.
    pub postconditions: Expression,
    /// Local limits.
    pub limits: ExecutionLimits,
}

/// The model of scope fields.
pub open spec fn spec_scope_model(f: ScopeFields) -> ScopeModel {
    ScopeModel {
        inputs: f.inputs.spec_model(),
        outputs: f.outputs.spec_model(),
        carried: f.carried.spec_model(),
        nodes: spec_nodes_model(f.nodes@),
        edges: spec_edges_model(f.edges@),
        preconditions: spec_expr_model(f.preconditions),
        postconditions: spec_expr_model(f.postconditions),
        limits: f.limits.spec_values(),
    }
}

impl Default for ScopeFields {
    /// Empty tables, no nodes or edges, `true` contracts and empty limits.
    fn default() -> (res: ScopeFields)
        ensures
            spec_scope_model(res) == (ScopeModel {
                inputs: Seq::empty(),
                outputs: Seq::empty(),
                carried: Seq::empty(),
                nodes: Seq::empty(),
                edges: Seq::empty(),
                preconditions: ExprModel::Literal(crate::expression::model::ScalarModel::Boolean(true)),
                postconditions: ExprModel::Literal(crate::expression::model::ScalarModel::Boolean(true)),
                limits: seq![None, None, None, None, None, None],
            }),
    {
        let res = ScopeFields {
            inputs: PortTable::empty(),
            outputs: PortTable::empty(),
            carried: PortTable::empty(),
            nodes: Vec::new(),
            edges: Vec::new(),
            preconditions: Expression::literal(crate::expression::ScalarLiteral::Boolean(true)),
            postconditions: Expression::literal(crate::expression::ScalarLiteral::Boolean(true)),
            limits: ExecutionLimits::new(),
        };
        proof {
            assert(res.inputs.spec_model() =~= Seq::<(Seq<char>, PortModel)>::empty());
            assert(res.outputs.spec_model() =~= Seq::<(Seq<char>, PortModel)>::empty());
            assert(res.carried.spec_model() =~= Seq::<(Seq<char>, PortModel)>::empty());
            assert(spec_nodes_model(res.nodes@) =~= Seq::<NodeModel>::empty());
            assert(spec_edges_model(res.edges@) =~= Seq::<EdgeModel>::empty());
        }
        res
    }
}

/// Whether node names and edge names each strictly increase.
pub open spec fn spec_scope_ordered(m: ScopeModel) -> bool {
    spec_ids_ordered(spec_node_ids(m.nodes), "node") is Ok && spec_ids_ordered(spec_edge_ids(m.edges), "edge") is Ok
}

/// A scope whose nodes and edges are each in strictly increasing name order.
#[derive(Debug)]
pub struct Scope {
    fields: ScopeFields,
}

impl Scope {
    #[verifier::type_invariant]
    spec fn ordered(&self) -> bool {
        spec_scope_ordered(spec_scope_model(self.fields))
    }

    /// The scope as mathematics.
    pub closed spec fn spec_model(&self) -> ScopeModel {
        spec_scope_model(self.fields)
    }

    /// Its fields.
    pub fn fields(&self) -> (res: &ScopeFields)
        ensures
            spec_scope_model(*res) == self.spec_model(),
            spec_scope_ordered(self.spec_model()),
    {
        proof {
            use_type_invariant(self);
        }
        &self.fields
    }
}

/// Reads a scope's tables, contracts and limits.
fn parse_scope_rest(m: &crate::cbor::value::ValueMap, limits: &Limits, nodes: Vec<Node>, edges: Vec<Edge>)
    -> (res: Result<ScopeFields, GraphRecordError>)
    requires
        limits.spec_valid(),
    ensures
        match spec_parse_scope_rest(m.entries@, *limits, spec_nodes_model(nodes@), spec_edges_model(edges@)) {
            Ok(x) => res matches Ok(f) && spec_scope_model(f) == x,
            Err(e) => res == Err::<ScopeFields, GraphRecordError>(e),
        },
{
    let inputs = super::parse_table(field_or_missing(m, "inputs")?, limits)?;
    let outputs = super::parse_table(field_or_missing(m, "outputs")?, limits)?;
    let carried = super::parse_table(field_or_missing(m, "carried")?, limits)?;
    let preconditions = match parse_expr(field_or_missing(m, "preconditions")?, ExpressionContext::Preconditions, false) {
        Ok(x) => x,
        Err(e) => return Err(GraphRecordError::Expression(e)),
    };
    let postconditions = match parse_expr(field_or_missing(m, "postconditions")?, ExpressionContext::ScopePostconditions, false) {
        Ok(x) => x,
        Err(e) => return Err(GraphRecordError::Expression(e)),
    };
    let lims = match ExecutionLimits::parse(field_or_missing(m, "limits")?) {
        Ok(x) => x,
        Err(e) => return Err(GraphRecordError::Options(e)),
    };
    Ok(ScopeFields { inputs, outputs, carried, nodes, edges, preconditions, postconditions, limits: lims })
}

/// Reads a scope record in context `c` without repairing its order.
pub fn parse_scope(v: &Value, c: ScopeContext, limits: &Limits) -> (res: Result<Scope, GraphRecordError>)
    requires
        limits.spec_valid(),
    ensures
        match spec_parse_scope(*v, c, *limits) {
            Ok(x) => res matches Ok(s) && s.spec_model() == x,
            Err(e) => res == Err::<Scope, GraphRecordError>(e),
        },
{
    let fields: [&'static str; 8] = ["carried", "edges", "inputs", "limits", "nodes", "outputs", "postconditions",
        "preconditions"];
    assert(fields@ == spec_scope_fields());
    let m = graph_closed(v, "scope", &fields)?;
    let nodes = match field_or_missing(m, "nodes")? {
        Value::Array(ns) => parse_nodes(ns, c, limits)?,
        _ => return Err(GraphRecordError::InvalidShape("nodes")),
    };
    let edges = match field_or_missing(m, "edges")? {
        Value::Array(xs) => parse_edges(xs, c)?,
        _ => return Err(GraphRecordError::InvalidShape("edges")),
    };
    {
        let names = node_names(&nodes);
        ids_ordered(&names, "node")?;
    }
    {
        let names = edge_names(&edges);
        ids_ordered(&names, "edge")?;
    }
    let f = parse_scope_rest(m, limits, nodes, edges)?;
    Ok(Scope { fields: f })
}

impl Scope {
    /// Bounds already decoded scope data under the codec limits, then reads
    /// it in context `context` without repairing node or edge order.
    pub fn from_value(v: &Value, context: ScopeContext, limits: &Limits) -> (res: Result<Scope, GraphRecordError>)
        ensures
            !(limits.spec_valid() && crate::cbor::encode::spec_fits(*v, *limits)) ==> res matches Err(GraphRecordError::Codec(_)),
            limits.spec_valid() && crate::cbor::encode::spec_fits(*v, *limits) ==> match spec_parse_scope(*v, context, *limits) {
                Ok(m) => res matches Ok(s) && s.spec_model() == m,
                Err(x) => res == Err::<Scope, GraphRecordError>(x),
            },
    {
        if let Err(e) = crate::cbor::encode::encode(v, limits) {
            return Err(GraphRecordError::Codec(e));
        }
        parse_scope(v, context, limits)
    }

    /// Decodes exactly one canonical scope record in context `context`.
    pub fn decode(bytes: &[u8], context: ScopeContext, limits: &Limits) -> (res: Result<Scope, GraphRecordError>)
        ensures
            !limits.spec_valid() ==> res matches Err(GraphRecordError::Codec(_)),
            res matches Ok(s) ==> exists|w: Value| #[trigger] crate::cbor::value::spec_encode(w) == bytes@
                && spec_parse_scope(w, context, *limits) == Ok::<ScopeModel, GraphRecordError>(s.spec_model()),
            limits.spec_valid() && (exists|x: Value| #[trigger] crate::cbor::value::spec_encode(x) == bytes@
                && crate::cbor::value::spec_wf(x) && crate::cbor::value::spec_height(x) <= limits.max_depth
                && bytes@.len() <= limits.max_document_bytes) ==> exists|w: Value|
                #[trigger] crate::cbor::value::spec_encode(w) == bytes@ && crate::cbor::value::spec_wf(w)
                && (match spec_parse_scope(w, context, *limits) {
                    Ok(m) => res matches Ok(s) && s.spec_model() == m,
                    Err(x) => res == Err::<Scope, GraphRecordError>(x),
                }),
    {
        let v = match crate::cbor::decode::decode(bytes, limits) {
            Ok(v) => v,
            Err(e) => return Err(GraphRecordError::Codec(e)),
        };
        proof { assert(crate::cbor::value::spec_encode(v) == bytes@ && crate::cbor::value::spec_wf(v)); }
        parse_scope(&v, context, limits)
    }
}

} // verus!

verus! {

use super::edge::{spec_edge_built, spec_edge_record};
use super::node::{spec_node_built, spec_node_record};
use super::operation::spec_limit_failure;
use super::{spec_grun, spec_table_record, spec_table_steps};
use crate::expression::model::{spec_erun, spec_expr_record, spec_expr_steps};
use crate::options::{spec_limit_error, spec_limits_charges, spec_limits_record};
use crate::record_accounting::{spec_charges, spec_value_charges, RecordAccounting};

/// What building a scope record gives once its tables and nodes are built:
/// its edges, contracts and limits, then the whole record bounded.
pub open spec fn spec_scope_built_rest(l: Limits, c: ScopeContext, m: ScopeModel, res: Result<Value, GraphRecordError>) -> bool {
    exists|re: Result<Seq<Value>, GraphRecordError>| #[trigger] spec_edges_built(l, c, m.edges, re) && match re {
        Err(e) => res == Err::<Value, GraphRecordError>(e),
        Ok(_) => match spec_erun(l, (0, 0, 0), spec_expr_steps(m.preconditions, ExpressionContext::Preconditions, 0)) {
            Err(e) => res == Err::<Value, GraphRecordError>(GraphRecordError::Expression(e)),
            Ok(_) => match spec_erun(l, (0, 0, 0), spec_expr_steps(m.postconditions, ExpressionContext::ScopePostconditions, 0)) {
                Err(e) => res == Err::<Value, GraphRecordError>(GraphRecordError::Expression(e)),
                Ok(_) => match spec_charges(l, (0, 0, 0), spec_limits_charges(m.limits)) {
                    Err(e) => res == Err::<Value, GraphRecordError>(GraphRecordError::Options(spec_limit_error(e))),
                    Ok(_) => exists|v: Value| #[trigger] spec_scope_record(v, m)
                        && match spec_charges(l, (0, 0, 0), spec_value_charges(v, 0)) {
                            Ok(_) => res matches Ok(w) && spec_scope_record(w, m),
                            Err(x) => res == Err::<Value, GraphRecordError>(spec_limit_failure(x)),
                        },
                },
            },
        },
    }
}

/// A trace of building node records in order: each outcome so far, all but
/// the last successful.
#[verifier::opaque]
pub open spec fn spec_nodes_trace(l: Limits, c: ScopeContext, ms: Seq<NodeModel>, rs: Seq<Result<Value, GraphRecordError>>,
    res: Result<Seq<Value>, GraphRecordError>) -> bool {
    &&& rs.len() <= ms.len()
    &&& forall|j: int| 0 <= j < rs.len() ==> #[trigger] spec_node_built(l, c, ms[j], rs[j])
    &&& forall|j: int| 0 <= j < rs.len() - 1 ==> (#[trigger] rs[j]) is Ok
    &&& match res {
        Ok(vs) => rs.len() == ms.len() && vs.len() == ms.len()
            && forall|j: int| 0 <= j < ms.len() ==> #[trigger] rs[j] == Ok::<Value, GraphRecordError>(vs[j]),
        Err(e) => rs.len() > 0 && rs.last() == Err::<Value, GraphRecordError>(e),
    }
}

/// What building the records in order gives: the first failure, or every
/// record.
pub open spec fn spec_nodes_built(l: Limits, c: ScopeContext, ms: Seq<NodeModel>, res: Result<Seq<Value>, GraphRecordError>) -> bool {
    exists|rs: Seq<Result<Value, GraphRecordError>>| #[trigger] spec_nodes_trace(l, c, ms, rs, res)
}

/// A trace of building edge records in order: each outcome so far, all but
/// the last successful.
#[verifier::opaque]
pub open spec fn spec_edges_trace(l: Limits, c: ScopeContext, ms: Seq<EdgeModel>, rs: Seq<Result<Value, GraphRecordError>>,
    res: Result<Seq<Value>, GraphRecordError>) -> bool {
    &&& rs.len() <= ms.len()
    &&& forall|j: int| 0 <= j < rs.len() ==> #[trigger] spec_edge_built(l, c, ms[j], rs[j])
    &&& forall|j: int| 0 <= j < rs.len() - 1 ==> (#[trigger] rs[j]) is Ok
    &&& match res {
        Ok(vs) => rs.len() == ms.len() && vs.len() == ms.len()
            && forall|j: int| 0 <= j < ms.len() ==> #[trigger] rs[j] == Ok::<Value, GraphRecordError>(vs[j]),
        Err(e) => rs.len() > 0 && rs.last() == Err::<Value, GraphRecordError>(e),
    }
}

/// What building the records in order gives: the first failure, or every
/// record.
pub open spec fn spec_edges_built(l: Limits, c: ScopeContext, ms: Seq<EdgeModel>, res: Result<Seq<Value>, GraphRecordError>) -> bool {
    exists|rs: Seq<Result<Value, GraphRecordError>>| #[trigger] spec_edges_trace(l, c, ms, rs, res)
}

/// Entry `i` of `built` is field `i` of the scope `m`, in building order.
pub open spec fn spec_scope_entries(built: Seq<(String, Value)>, m: ScopeModel) -> bool {
    &&& built.len() == 8
    &&& built[0].0@ == "inputs"@ && spec_table_record(built[0].1, m.inputs)
    &&& built[1].0@ == "outputs"@ && spec_table_record(built[1].1, m.outputs)
    &&& built[2].0@ == "carried"@ && spec_table_record(built[2].1, m.carried)
    &&& built[3].0@ == "nodes"@ && (built[3].1 matches Value::Array(a) && a@.len() == m.nodes.len()
        && forall|i: int| 0 <= i < a@.len() ==> spec_node_record(#[trigger] a@[i], m.nodes[i]))
    &&& built[4].0@ == "edges"@ && (built[4].1 matches Value::Array(a) && a@.len() == m.edges.len()
        && forall|i: int| 0 <= i < a@.len() ==> spec_edge_record(#[trigger] a@[i], m.edges[i]))
    &&& built[5].0@ == "preconditions"@ && spec_expr_record(built[5].1, m.preconditions)
    &&& built[6].0@ == "postconditions"@ && spec_expr_record(built[6].1, m.postconditions)
    &&& built[7].0@ == "limits"@ && spec_limits_record(built[7].1, m.limits)
}

/// The canonical scope record: a map in canonical key order of its fields.
pub open spec fn spec_scope_record(v: Value, m: ScopeModel) -> bool {
    v matches Value::Object(map) && crate::cbor::value::spec_keys_sorted(map.entries@)
        && exists|built: Seq<(String, Value)>| #[trigger] built.to_multiset() == map.entries@.to_multiset()
            && spec_scope_entries(built, m)
}

/// What building the record of scope `m` in context `c` under valid limits
/// gives: each nested record in field order on its own accounting (tables,
/// nodes, edges, contracts, limits), then the whole record bounded.
pub open spec fn spec_scope_built(l: Limits, c: ScopeContext, m: ScopeModel, res: Result<Value, GraphRecordError>) -> bool {
    match spec_grun(l, (0, 0, 0), spec_table_steps(l, m.inputs)) {
        Err(e) => res == Err::<Value, GraphRecordError>(e),
        Ok(_) => match spec_grun(l, (0, 0, 0), spec_table_steps(l, m.outputs)) {
            Err(e) => res == Err::<Value, GraphRecordError>(e),
            Ok(_) => match spec_grun(l, (0, 0, 0), spec_table_steps(l, m.carried)) {
                Err(e) => res == Err::<Value, GraphRecordError>(e),
                Ok(_) => exists|rn: Result<Seq<Value>, GraphRecordError>| #[trigger] spec_nodes_built(l, c, m.nodes, rn) && match rn {
                    Err(e) => res == Err::<Value, GraphRecordError>(e),
                    Ok(_) => spec_scope_built_rest(l, c, m, res),
                },
            },
        },
    }
}



/// Builds node records in order.
fn nodes_values(nodes: &Vec<Node>, c: ScopeContext, limits: &Limits) -> (res: Result<Vec<Value>, GraphRecordError>)
    requires
        limits.spec_valid(),
    ensures
        spec_nodes_built(*limits, c, spec_nodes_model(nodes@), match res {
            Ok(vs) => Ok::<Seq<Value>, GraphRecordError>(vs@),
            Err(e) => Err::<Seq<Value>, GraphRecordError>(e),
        }),
        res matches Ok(vs) ==> vs@.len() == nodes@.len()
            && forall|i: int| 0 <= i < vs@.len() ==> spec_node_record(#[trigger] vs@[i], nodes@[i].spec_model()),
{
    let ghost ms = spec_nodes_model(nodes@);
    proof {
        reveal(spec_nodes_trace);
    }
    let ghost mut rs: Seq<Result<Value, GraphRecordError>> = Seq::empty();
    let mut out: Vec<Value> = Vec::new();
    let mut i: usize = 0;
    while i < nodes.len()
        invariant
            ms == spec_nodes_model(nodes@),
            limits.spec_valid(),
            i <= nodes@.len(),
            rs.len() == i,
            out@.len() == i,
            forall|j: int| 0 <= j < i ==> #[trigger] spec_node_built(*limits, c, ms[j], rs[j]),
            forall|j: int| 0 <= j < i ==> #[trigger] rs[j] == Ok::<Value, GraphRecordError>(out@[j]),
            forall|j: int| 0 <= j < i ==> spec_node_record(#[trigger] out@[j], nodes@[j].spec_model()),
        decreases nodes@.len() - i,
    {
        let r = nodes[i].to_value(c, limits);
        proof {
            assert(ms[i as int] == nodes@[i as int].spec_model());
        }
        let v = match r {
            Ok(v) => v,
            Err(e) => {
                proof {
                    let rs2 = rs.push(r);
                    assert forall|j: int| 0 <= j < rs2.len() implies #[trigger] spec_node_built(*limits, c, ms[j], rs2[j]) by {
                        if j < i {
                            assert(rs2[j] == rs[j]);
                        }
                    }
                    assert forall|j: int| 0 <= j < rs2.len() - 1 implies (#[trigger] rs2[j]) is Ok by {
                        assert(rs2[j] == rs[j]);
                        assert(rs[j] == Ok::<Value, GraphRecordError>(out@[j]));
                    }
                    reveal(spec_nodes_trace);
                    assert(spec_nodes_trace(*limits, c, ms, rs2, Err::<Seq<Value>, GraphRecordError>(e)));
                }
                return Err(e);
            },
        };
        proof {
            reveal(spec_node_built);
            rs = rs.push(r);
        }
        out.push(v);
        i = i + 1;
    }
    proof {
        reveal(spec_nodes_trace);
        assert(spec_nodes_trace(*limits, c, ms, rs, Ok::<Seq<Value>, GraphRecordError>(out@)));
    }
    Ok(out)
}



/// Builds edge records in order.
fn edges_values(edges: &Vec<Edge>, c: ScopeContext, limits: &Limits) -> (res: Result<Vec<Value>, GraphRecordError>)
    requires
        limits.spec_valid(),
    ensures
        spec_edges_built(*limits, c, spec_edges_model(edges@), match res {
            Ok(vs) => Ok::<Seq<Value>, GraphRecordError>(vs@),
            Err(e) => Err::<Seq<Value>, GraphRecordError>(e),
        }),
        res matches Ok(vs) ==> vs@.len() == edges@.len()
            && forall|i: int| 0 <= i < vs@.len() ==> spec_edge_record(#[trigger] vs@[i], edges@[i].spec_model()),
{
    let ghost ms = spec_edges_model(edges@);
    proof {
        reveal(spec_edges_trace);
    }
    let ghost mut rs: Seq<Result<Value, GraphRecordError>> = Seq::empty();
    let mut out: Vec<Value> = Vec::new();
    let mut i: usize = 0;
    while i < edges.len()
        invariant
            ms == spec_edges_model(edges@),
            limits.spec_valid(),
            i <= edges@.len(),
            rs.len() == i,
            out@.len() == i,
            forall|j: int| 0 <= j < i ==> #[trigger] spec_edge_built(*limits, c, ms[j], rs[j]),
            forall|j: int| 0 <= j < i ==> #[trigger] rs[j] == Ok::<Value, GraphRecordError>(out@[j]),
            forall|j: int| 0 <= j < i ==> spec_edge_record(#[trigger] out@[j], edges@[j].spec_model()),
        decreases edges@.len() - i,
    {
        let r = edges[i].to_value(c, limits);
        proof {
            assert(ms[i as int] == edges@[i as int].spec_model());
        }
        let v = match r {
            Ok(v) => v,
            Err(e) => {
                proof {
                    let rs2 = rs.push(r);
                    assert forall|j: int| 0 <= j < rs2.len() implies #[trigger] spec_edge_built(*limits, c, ms[j], rs2[j]) by {
                        if j < i {
                            assert(rs2[j] == rs[j]);
                        }
                    }
                    assert forall|j: int| 0 <= j < rs2.len() - 1 implies (#[trigger] rs2[j]) is Ok by {
                        assert(rs2[j] == rs[j]);
                        assert(rs[j] == Ok::<Value, GraphRecordError>(out@[j]));
                    }
                    reveal(spec_edges_trace);
                    assert(spec_edges_trace(*limits, c, ms, rs2, Err::<Seq<Value>, GraphRecordError>(e)));
                }
                return Err(e);
            },
        };
        proof {
            reveal(spec_edge_built);
            rs = rs.push(r);
        }
        out.push(v);
        i = i + 1;
    }
    proof {
        reveal(spec_edges_trace);
        assert(spec_edges_trace(*limits, c, ms, rs, Ok::<Seq<Value>, GraphRecordError>(out@)));
    }
    Ok(out)
}

} // verus!

verus! {

use crate::digest::{record_digest, spec_record_prefix, spec_sha256, Digest, RecordKind};

/// The keys of a scope record are distinct.
proof fn lemma_scope_keys_distinct(built: Seq<(String, Value)>)
    requires
        built.len() == 8,
        built[0].0@ == "inputs"@,
        built[1].0@ == "outputs"@,
        built[2].0@ == "carried"@,
        built[3].0@ == "nodes"@,
        built[4].0@ == "edges"@,
        built[5].0@ == "preconditions"@,
        built[6].0@ == "postconditions"@,
        built[7].0@ == "limits"@,
    ensures
        crate::cbor::map::spec_keys_distinct(built),
{
    reveal_strlit("inputs");
    reveal_strlit("outputs");
    reveal_strlit("carried");
    reveal_strlit("nodes");
    reveal_strlit("edges");
    reveal_strlit("preconditions");
    reveal_strlit("postconditions");
    reveal_strlit("limits");
    assert("inputs"@.len() == 6 && "inputs"@[0] == 'i');
    assert("outputs"@.len() == 7 && "outputs"@[0] == 'o');
    assert("carried"@.len() == 7 && "carried"@[0] == 'c');
    assert("nodes"@.len() == 5 && "nodes"@[0] == 'n');
    assert("edges"@.len() == 5 && "edges"@[0] == 'e');
    assert("preconditions"@.len() == 13 && "preconditions"@[1] == 'r');
    assert("postconditions"@.len() == 14);
    assert("limits"@.len() == 6 && "limits"@[0] == 'l');
    assert forall|i: int, j: int| 0 <= i < j < built.len() implies spec_utf8(#[trigger] built[i].0@)
        != spec_utf8(#[trigger] built[j].0@) by {
        if spec_utf8(built[i].0@) == spec_utf8(built[j].0@) {
            crate::types::model::lemma_utf8_injective(built[i].0@, built[j].0@);
        }
    }
}

/// Builds a scope record from its fields.
#[verifier::rlimit(100)]
fn scope_value(f: &ScopeFields, c: ScopeContext, limits: &Limits) -> (res: Result<Value, GraphRecordError>)
    ensures
        !limits.spec_valid() ==> res matches Err(GraphRecordError::Codec(_)),
        limits.spec_valid() ==> spec_scope_built(*limits, c, spec_scope_model(*f), res),
{
    if let Err(e) = limits.validate() {
        return Err(GraphRecordError::Codec(e));
    }
    let iv = f.inputs.to_value(limits)?;
    let ov = f.outputs.to_value(limits)?;
    let cv = f.carried.to_value(limits)?;
    let nr = nodes_values(&f.nodes, c, limits);
    let nvs = match nr {
        Ok(x) => x,
        Err(e) => {
            proof {
                assert(spec_nodes_built(*limits, c, spec_scope_model(*f).nodes, Err::<Seq<Value>, GraphRecordError>(e)));
            }
            return Err(e);
        },
    };
    proof {
        assert(spec_nodes_built(*limits, c, spec_scope_model(*f).nodes, Ok::<Seq<Value>, GraphRecordError>(nvs@)));
    }
    let res = scope_rest(f, c, limits, iv, ov, cv, nvs);
    res
}

/// Builds the rest of a scope record once its tables and nodes are built.
#[verifier::rlimit(80)]
fn scope_rest(f: &ScopeFields, c: ScopeContext, limits: &Limits, iv: Value, ov: Value, cv: Value, nvs: Vec<Value>)
    -> (res: Result<Value, GraphRecordError>)
    requires
        limits.spec_valid(),
        spec_table_record(iv, spec_scope_model(*f).inputs),
        spec_table_record(ov, spec_scope_model(*f).outputs),
        spec_table_record(cv, spec_scope_model(*f).carried),
        nvs@.len() == f.nodes@.len(),
        forall|i: int| 0 <= i < nvs@.len() ==> spec_node_record(#[trigger] nvs@[i], f.nodes@[i].spec_model()),
    ensures
        spec_scope_built_rest(*limits, c, spec_scope_model(*f), res),
{
    let mut acc = match RecordAccounting::new(limits) {
        Ok(a) => a,
        Err(e) => return Err(GraphRecordError::Codec(e)),
    };
    let ghost m = spec_scope_model(*f);
    let er = edges_values(&f.edges, c, limits);
    let evs = match er {
        Ok(x) => x,
        Err(e) => {
            proof {
                assert(spec_edges_built(*limits, c, spec_scope_model(*f).edges, Err::<Seq<Value>, GraphRecordError>(e)));
            }
            return Err(e);
        },
    };
    proof {
        assert(spec_edges_built(*limits, c, spec_scope_model(*f).edges, Ok::<Seq<Value>, GraphRecordError>(evs@)));
    }
    let pv = match f.preconditions.to_value(ExpressionContext::Preconditions, limits) {
        Ok(v) => v,
        Err(e) => return Err(GraphRecordError::Expression(e)),
    };
    let qv = match f.postconditions.to_value(ExpressionContext::ScopePostconditions, limits) {
        Ok(v) => v,
        Err(e) => return Err(GraphRecordError::Expression(e)),
    };
    let lv = match f.limits.to_value(limits) {
        Ok(v) => v,
        Err(e) => return Err(GraphRecordError::Options(e)),
    };
    let ghost nseq = nvs@;
    let ghost eseq = evs@;
    let mut built: Vec<(String, Value)> = Vec::new();
    built.push((String::from_str("inputs"), iv));
    built.push((String::from_str("outputs"), ov));
    built.push((String::from_str("carried"), cv));
    built.push((String::from_str("nodes"), Value::Array(nvs)));
    built.push((String::from_str("edges"), Value::Array(evs)));
    built.push((String::from_str("preconditions"), pv));
    built.push((String::from_str("postconditions"), qv));
    built.push((String::from_str("limits"), lv));
    proof {
        lemma_scope_keys_distinct(built@);
        assert(spec_scope_entries(built@, m));
    }
    let ghost bv = built@;
    let map = match crate::cbor::value::ValueMap::try_from_entries(built) {
        Ok(x) => x,
        Err(e) => return Err(GraphRecordError::Codec(e)),
    };
    let v = Value::Object(map);
    proof {
        assert(bv.to_multiset() == map.entries@.to_multiset());
        assert(spec_scope_record(v, m));
    }
    match acc.value(&v, 0) {
        Ok(()) => {},
        Err(e) => return Err(GraphRecordError::LimitExceeded { limit: e.limit, maximum: e.maximum }),
    }
    Ok(v)
}

impl Scope {
    /// Produces the canonical record in context `context`; the context
    /// decides how guards are read and is not itself recorded.
    pub fn to_value(&self, context: ScopeContext, limits: &Limits) -> (res: Result<Value, GraphRecordError>)
        ensures
            !limits.spec_valid() ==> res matches Err(GraphRecordError::Codec(_)),
            limits.spec_valid() ==> spec_scope_built(*limits, context, self.spec_model(), res),
    {
        scope_value(&self.fields, context, limits)
    }

    /// Encodes one canonical scope record.
    pub fn encode(&self, context: ScopeContext, limits: &Limits) -> (res: Result<Vec<u8>, GraphRecordError>)
        ensures
            !limits.spec_valid() ==> res matches Err(GraphRecordError::Codec(_)),
            limits.spec_valid() ==> exists|r: Result<Value, GraphRecordError>|
                #[trigger] spec_scope_built(*limits, context, self.spec_model(), r) && match r {
                    Err(e) => res == Err::<Vec<u8>, GraphRecordError>(e),
                    Ok(v) => (crate::cbor::encode::spec_fits(v, *limits) <==> res is Ok)
                        && (res matches Ok(b) ==> b@ == crate::cbor::value::spec_encode(v)),
                },
    {
        let r = self.to_value(context, limits);
        let v = match r {
            Ok(v) => v,
            Err(e) => return Err(e),
        };
        match crate::cbor::encode::encode(&v, limits) {
            Ok(b) => Ok(b),
            Err(e) => Err(GraphRecordError::Codec(e)),
        }
    }

    /// The scope's identity: its record hashed under the scope domain; the
    /// context is not hashed.
    pub fn digest(&self, context: ScopeContext, limits: &Limits) -> (res: Result<Digest, GraphRecordError>)
        ensures
            !limits.spec_valid() ==> res matches Err(GraphRecordError::Codec(_)),
            limits.spec_valid() ==> exists|r: Result<Value, GraphRecordError>|
                #[trigger] spec_scope_built(*limits, context, self.spec_model(), r) && match r {
                    Err(e) => res == Err::<Digest, GraphRecordError>(e),
                    Ok(v) => (res is Ok <==> crate::cbor::value::spec_encode(v).len() <= limits.max_document_bytes
                            && crate::cbor::value::spec_height(v) <= limits.max_depth)
                        && (res matches Ok(d) ==> d@ == spec_sha256(spec_record_prefix(RecordKind::Scope)
                            + crate::cbor::value::spec_encode(v)))
                        && (res matches Err(x) ==> x is Codec),
                },
    {
        let r = self.to_value(context, limits);
        let v = match r {
            Ok(v) => v,
            Err(e) => return Err(e),
        };
        match record_digest(RecordKind::Scope, &v, limits) {
            Ok(d) => Ok(d),
            Err(e) => Err(GraphRecordError::Codec(e)),
        }
    }
}

} // verus!

verus! {

/// Whether the nodes' names strictly increase in UTF-8 byte order.
pub open spec fn spec_nodes_sorted(s: Seq<NodeModel>) -> bool {
    forall|i: int, j: int| 0 <= i < j < s.len() ==> spec_lex_lt(spec_utf8((#[trigger] s[i]).id), spec_utf8((#[trigger] s[j]).id))
}

/// Orders nodes by the UTF-8 bytes of their names; the names must be
/// distinct.
#[verifier::rlimit(60)]
fn sort_nodes(items: Vec<Node>) -> (res: Vec<Node>)
    requires
        crate::types::model::spec_names_distinct(spec_node_ids(spec_nodes_model(items@))),
    ensures
        spec_nodes_sorted(spec_nodes_model(res@)),
        spec_nodes_model(res@).to_multiset() == spec_nodes_model(items@).to_multiset(),
{
    let ghost unsorted = spec_nodes_model(items@);
    let mut input = items;
    let mut output: Vec<Node> = Vec::new();
    proof {
        spec_nodes_model(output@).to_multiset_ensures();
        assert(spec_nodes_model(output@).to_multiset() =~= vstd::multiset::Multiset::<NodeModel>::empty());
        let names = spec_node_ids(unsorted);
        assert forall|a: int, c: int| 0 <= a < c < input@.len() implies spec_utf8((#[trigger] input@[a]).spec_model().id)
            != spec_utf8((#[trigger] input@[c]).spec_model().id) by {
            assert(names[a] == input@[a].spec_model().id);
            assert(names[c] == input@[c].spec_model().id);
        }
    }
    while input.len() > 0
        invariant
            unsorted == spec_nodes_model(items@),
            spec_nodes_sorted(spec_nodes_model(output@)),
            forall|a: int, c: int| 0 <= a < output@.len() && 0 <= c < input@.len() ==> spec_lex_lt(
                spec_utf8((#[trigger] output@[a]).spec_model().id), spec_utf8((#[trigger] input@[c]).spec_model().id)),
            spec_nodes_model(output@).to_multiset().add(spec_nodes_model(input@).to_multiset()) == unsorted.to_multiset(),
            forall|a: int, c: int| 0 <= a < c < input@.len() ==> spec_utf8((#[trigger] input@[a]).spec_model().id)
                != spec_utf8((#[trigger] input@[c]).spec_model().id),
        decreases input@.len(),
    {
        let mut min: usize = 0;
        let mut j: usize = 1;
        while j < input.len()
            invariant
                0 <= min < j <= input@.len(),
                forall|a: int, c: int| 0 <= a < c < input@.len() ==> spec_utf8((#[trigger] input@[a]).spec_model().id)
                    != spec_utf8((#[trigger] input@[c]).spec_model().id),
                forall|q: int| 0 <= q < j && q != min ==> spec_lex_lt(
                    spec_utf8(input@[min as int].spec_model().id), spec_utf8((#[trigger] input@[q]).spec_model().id)),
            decreases input@.len() - j,
        {
            let smaller = crate::types::reader::bytes_lt(input[j].id().as_str().as_bytes(), input[min].id().as_str().as_bytes());
            proof {
                crate::cbor::keys::lemma_lex_total(spec_utf8(input@[j as int].spec_model().id),
                    spec_utf8(input@[min as int].spec_model().id));
            }
            if smaller {
                proof {
                    assert forall|q: int| 0 <= q < j + 1 && q != j implies spec_lex_lt(
                        spec_utf8(input@[j as int].spec_model().id), spec_utf8((#[trigger] input@[q]).spec_model().id)) by {
                        if q != min {
                            crate::cbor::keys::lemma_lex_transitive(spec_utf8(input@[j as int].spec_model().id),
                                spec_utf8(input@[min as int].spec_model().id), spec_utf8(input@[q].spec_model().id));
                        }
                    }
                }
                min = j;
            }
            j = j + 1;
        }
        let ghost before_in = input@;
        let ghost before_out = output@;
        let entry = input.remove(min);
        output.push(entry);
        proof {
            let mi = spec_nodes_model(before_in);
            let mo = spec_nodes_model(before_out);
            assert(spec_nodes_model(input@) =~= mi.remove(min as int));
            assert(spec_nodes_model(output@) =~= mo.push(mi[min as int]));
            vstd::seq_lib::to_multiset_remove(mi, min as int);
            vstd::seq_lib::to_multiset_build(mo, mi[min as int]);
            mi.to_multiset_ensures();
            assert(spec_nodes_model(output@).to_multiset().add(spec_nodes_model(input@).to_multiset())
                =~= unsorted.to_multiset());
            let no = spec_nodes_model(output@);
            assert forall|a: int, c: int| 0 <= a < c < no.len() implies spec_lex_lt(
                spec_utf8((#[trigger] no[a]).id), spec_utf8((#[trigger] no[c]).id)) by {
                if c == no.len() - 1 {
                    assert(no[c] == mi[min as int]);
                    assert(no[a] == mo[a]);
                } else {
                    assert(no[a] == mo[a]);
                    assert(no[c] == mo[c]);
                }
            }
            assert forall|a: int, c: int| 0 <= a < output@.len() && 0 <= c < input@.len() implies spec_lex_lt(
                spec_utf8((#[trigger] output@[a]).spec_model().id), spec_utf8((#[trigger] input@[c]).spec_model().id)) by {
                let q = if c < min { c } else { c + 1 };
                assert(input@[c] == before_in[q]);
                if a < before_out.len() {
                    assert(output@[a] == before_out[a]);
                } else {
                    assert(output@[a] == before_in[min as int]);
                }
            }
            assert forall|a: int, c: int| 0 <= a < c < input@.len() implies spec_utf8((#[trigger] input@[a]).spec_model().id)
                != spec_utf8((#[trigger] input@[c]).spec_model().id) by {
                let ka = if a < min { a } else { a + 1 };
                let kc = if c < min { c } else { c + 1 };
                assert(input@[a] == before_in[ka]);
                assert(input@[c] == before_in[kc]);
            }
        }
    }
    proof {
        spec_nodes_model(input@).to_multiset_ensures();
        assert(spec_nodes_model(input@).to_multiset() =~= vstd::multiset::Multiset::<NodeModel>::empty());
        assert(spec_nodes_model(output@).to_multiset() =~= unsorted.to_multiset());
    }
    output
}

/// Whether the nodes' names are pairwise distinct.
fn nodes_distinct(items: &Vec<Node>) -> (res: bool)
    ensures
        res == crate::types::model::spec_names_distinct(spec_node_ids(spec_nodes_model(items@))),
{
    let ghost ns = spec_node_ids(spec_nodes_model(items@));
    let mut a: usize = 0;
    while a < items.len()
        invariant
            ns == spec_node_ids(spec_nodes_model(items@)),
            a <= items@.len(),
            forall|x: int, y: int| 0 <= x < y < items@.len() && x < a ==> spec_utf8(#[trigger] ns[x]) != spec_utf8(#[trigger] ns[y]),
        decreases items@.len() - a,
    {
        let mut b: usize = a + 1;
        while b < items.len()
            invariant
                ns == spec_node_ids(spec_nodes_model(items@)),
                a < b <= items@.len(),
                forall|x: int, y: int| 0 <= x < y < items@.len() && x < a ==> spec_utf8(#[trigger] ns[x]) != spec_utf8(#[trigger] ns[y]),
                forall|y: int| a < y < b ==> spec_utf8(ns[a as int]) != spec_utf8(#[trigger] ns[y]),
            decreases items@.len() - b,
        {
            assert(ns[a as int] == items@[a as int].spec_model().id);
            assert(ns[b as int] == items@[b as int].spec_model().id);
            if same_text(items[a].id().as_str(), items[b].id().as_str()) {
                return false;
            }
            proof {
                if spec_utf8(ns[a as int]) == spec_utf8(ns[b as int]) {
                    crate::types::model::lemma_utf8_injective(ns[a as int], ns[b as int]);
                }
            }
            b = b + 1;
        }
        a = a + 1;
    }
    true
}

/// Whether the edges' names strictly increase in UTF-8 byte order.
pub open spec fn spec_edges_sorted(s: Seq<EdgeModel>) -> bool {
    forall|i: int, j: int| 0 <= i < j < s.len() ==> spec_lex_lt(spec_utf8((#[trigger] s[i]).0), spec_utf8((#[trigger] s[j]).0))
}

/// Orders edges by the UTF-8 bytes of their names; the names must be
/// distinct.
#[verifier::rlimit(60)]
fn sort_edges(items: Vec<Edge>) -> (res: Vec<Edge>)
    requires
        crate::types::model::spec_names_distinct(spec_edge_ids(spec_edges_model(items@))),
    ensures
        spec_edges_sorted(spec_edges_model(res@)),
        spec_edges_model(res@).to_multiset() == spec_edges_model(items@).to_multiset(),
{
    let ghost unsorted = spec_edges_model(items@);
    let mut input = items;
    let mut output: Vec<Edge> = Vec::new();
    proof {
        spec_edges_model(output@).to_multiset_ensures();
        assert(spec_edges_model(output@).to_multiset() =~= vstd::multiset::Multiset::<EdgeModel>::empty());
        let names = spec_edge_ids(unsorted);
        assert forall|a: int, c: int| 0 <= a < c < input@.len() implies spec_utf8((#[trigger] input@[a]).spec_model().0)
            != spec_utf8((#[trigger] input@[c]).spec_model().0) by {
            assert(names[a] == input@[a].spec_model().0);
            assert(names[c] == input@[c].spec_model().0);
        }
    }
    while input.len() > 0
        invariant
            unsorted == spec_edges_model(items@),
            spec_edges_sorted(spec_edges_model(output@)),
            forall|a: int, c: int| 0 <= a < output@.len() && 0 <= c < input@.len() ==> spec_lex_lt(
                spec_utf8((#[trigger] output@[a]).spec_model().0), spec_utf8((#[trigger] input@[c]).spec_model().0)),
            spec_edges_model(output@).to_multiset().add(spec_edges_model(input@).to_multiset()) == unsorted.to_multiset(),
            forall|a: int, c: int| 0 <= a < c < input@.len() ==> spec_utf8((#[trigger] input@[a]).spec_model().0)
                != spec_utf8((#[trigger] input@[c]).spec_model().0),
        decreases input@.len(),
    {
        let mut min: usize = 0;
        let mut j: usize = 1;
        while j < input.len()
            invariant
                0 <= min < j <= input@.len(),
                forall|a: int, c: int| 0 <= a < c < input@.len() ==> spec_utf8((#[trigger] input@[a]).spec_model().0)
                    != spec_utf8((#[trigger] input@[c]).spec_model().0),
                forall|q: int| 0 <= q < j && q != min ==> spec_lex_lt(
                    spec_utf8(input@[min as int].spec_model().0), spec_utf8((#[trigger] input@[q]).spec_model().0)),
            decreases input@.len() - j,
        {
            let smaller = crate::types::reader::bytes_lt(input[j].id().as_str().as_bytes(), input[min].id().as_str().as_bytes());
            proof {
                crate::cbor::keys::lemma_lex_total(spec_utf8(input@[j as int].spec_model().0),
                    spec_utf8(input@[min as int].spec_model().0));
            }
            if smaller {
                proof {
                    assert forall|q: int| 0 <= q < j + 1 && q != j implies spec_lex_lt(
                        spec_utf8(input@[j as int].spec_model().0), spec_utf8((#[trigger] input@[q]).spec_model().0)) by {
                        if q != min {
                            crate::cbor::keys::lemma_lex_transitive(spec_utf8(input@[j as int].spec_model().0),
                                spec_utf8(input@[min as int].spec_model().0), spec_utf8(input@[q].spec_model().0));
                        }
                    }
                }
                min = j;
            }
            j = j + 1;
        }
        let ghost before_in = input@;
        let ghost before_out = output@;
        let entry = input.remove(min);
        output.push(entry);
        proof {
            let mi = spec_edges_model(before_in);
            let mo = spec_edges_model(before_out);
            assert(spec_edges_model(input@) =~= mi.remove(min as int));
            assert(spec_edges_model(output@) =~= mo.push(mi[min as int]));
            vstd::seq_lib::to_multiset_remove(mi, min as int);
            vstd::seq_lib::to_multiset_build(mo, mi[min as int]);
            mi.to_multiset_ensures();
            assert(spec_edges_model(output@).to_multiset().add(spec_edges_model(input@).to_multiset())
                =~= unsorted.to_multiset());
            let no = spec_edges_model(output@);
            assert forall|a: int, c: int| 0 <= a < c < no.len() implies spec_lex_lt(
                spec_utf8((#[trigger] no[a]).0), spec_utf8((#[trigger] no[c]).0)) by {
                if c == no.len() - 1 {
                    assert(no[c] == mi[min as int]);
                    assert(no[a] == mo[a]);
                } else {
                    assert(no[a] == mo[a]);
                    assert(no[c] == mo[c]);
                }
            }
            assert forall|a: int, c: int| 0 <= a < output@.len() && 0 <= c < input@.len() implies spec_lex_lt(
                spec_utf8((#[trigger] output@[a]).spec_model().0), spec_utf8((#[trigger] input@[c]).spec_model().0)) by {
                let q = if c < min { c } else { c + 1 };
                assert(input@[c] == before_in[q]);
                if a < before_out.len() {
                    assert(output@[a] == before_out[a]);
                } else {
                    assert(output@[a] == before_in[min as int]);
                }
            }
            assert forall|a: int, c: int| 0 <= a < c < input@.len() implies spec_utf8((#[trigger] input@[a]).spec_model().0)
                != spec_utf8((#[trigger] input@[c]).spec_model().0) by {
                let ka = if a < min { a } else { a + 1 };
                let kc = if c < min { c } else { c + 1 };
                assert(input@[a] == before_in[ka]);
                assert(input@[c] == before_in[kc]);
            }
        }
    }
    proof {
        spec_edges_model(input@).to_multiset_ensures();
        assert(spec_edges_model(input@).to_multiset() =~= vstd::multiset::Multiset::<EdgeModel>::empty());
        assert(spec_edges_model(output@).to_multiset() =~= unsorted.to_multiset());
    }
    output
}

/// Whether the edges' names are pairwise distinct.
fn edges_distinct(items: &Vec<Edge>) -> (res: bool)
    ensures
        res == crate::types::model::spec_names_distinct(spec_edge_ids(spec_edges_model(items@))),
{
    let ghost ns = spec_edge_ids(spec_edges_model(items@));
    let mut a: usize = 0;
    while a < items.len()
        invariant
            ns == spec_edge_ids(spec_edges_model(items@)),
            a <= items@.len(),
            forall|x: int, y: int| 0 <= x < y < items@.len() && x < a ==> spec_utf8(#[trigger] ns[x]) != spec_utf8(#[trigger] ns[y]),
        decreases items@.len() - a,
    {
        let mut b: usize = a + 1;
        while b < items.len()
            invariant
                ns == spec_edge_ids(spec_edges_model(items@)),
                a < b <= items@.len(),
                forall|x: int, y: int| 0 <= x < y < items@.len() && x < a ==> spec_utf8(#[trigger] ns[x]) != spec_utf8(#[trigger] ns[y]),
                forall|y: int| a < y < b ==> spec_utf8(ns[a as int]) != spec_utf8(#[trigger] ns[y]),
            decreases items@.len() - b,
        {
            assert(ns[a as int] == items@[a as int].spec_model().0);
            assert(ns[b as int] == items@[b as int].spec_model().0);
            if same_text(items[a].id().as_str(), items[b].id().as_str()) {
                return false;
            }
            proof {
                if spec_utf8(ns[a as int]) == spec_utf8(ns[b as int]) {
                    crate::types::model::lemma_utf8_injective(ns[a as int], ns[b as int]);
                }
            }
            b = b + 1;
        }
        a = a + 1;
    }
    true
}

} // verus!

verus! {

/// Reading a scope record while putting its nodes and edges in name order:
/// repeated node names, then repeated edge names, are refused; the rest is
/// read as without ordering.
pub open spec fn spec_scope_normalized(v: Value, c: ScopeContext, l: Limits, res: Result<ScopeModel, GraphRecordError>) -> bool {
    match spec_graph_closed(v, "scope", spec_scope_fields()) {
        Err(e) => res == Err::<ScopeModel, GraphRecordError>(e),
        Ok(es) => match spec_field_or_missing(es, "nodes") {
            Err(e) => res == Err::<ScopeModel, GraphRecordError>(e),
            Ok(Value::Array(ns)) => match spec_parse_nodes(ns@, c, l) {
                Err(e) => res == Err::<ScopeModel, GraphRecordError>(e),
                Ok(nodes) => match spec_field_or_missing(es, "edges") {
                    Err(e) => res == Err::<ScopeModel, GraphRecordError>(e),
                    Ok(Value::Array(xs)) => match spec_parse_edges(xs@, c) {
                        Err(e) => res == Err::<ScopeModel, GraphRecordError>(e),
                        Ok(edges) => if !crate::types::model::spec_names_distinct(spec_node_ids(nodes)) {
                            res == Err::<ScopeModel, GraphRecordError>(GraphRecordError::DuplicateId("node"))
                        } else if !crate::types::model::spec_names_distinct(spec_edge_ids(edges)) {
                            res == Err::<ScopeModel, GraphRecordError>(GraphRecordError::DuplicateId("edge"))
                        } else {
                            match spec_parse_scope_rest(es, l, nodes, edges) {
                                Err(e) => res == Err::<ScopeModel, GraphRecordError>(e),
                                Ok(sm) => res matches Ok(x) && spec_nodes_sorted(x.nodes)
                                    && x.nodes.to_multiset() == nodes.to_multiset() && spec_edges_sorted(x.edges)
                                    && x.edges.to_multiset() == edges.to_multiset() && x.inputs == sm.inputs
                                    && x.outputs == sm.outputs && x.carried == sm.carried
                                    && x.preconditions == sm.preconditions && x.postconditions == sm.postconditions
                                    && x.limits == sm.limits,
                            }
                        },
                    },
                    Ok(_) => res == Err::<ScopeModel, GraphRecordError>(GraphRecordError::InvalidShape("edges")),
                },
            },
            Ok(_) => res == Err::<ScopeModel, GraphRecordError>(GraphRecordError::InvalidShape("nodes")),
        },
    }
}

/// Strictly increasing names pass the order check.
proof fn lemma_sorted_ids_ordered(ids: Seq<Seq<char>>, kind: &'static str)
    requires
        forall|i: int, j: int| 0 <= i < j < ids.len() ==> spec_lex_lt(spec_utf8(#[trigger] ids[i]), spec_utf8(#[trigger] ids[j])),
    ensures
        spec_ids_ordered(ids, kind) is Ok,
    decreases ids.len(),
{
    if ids.len() >= 2 {
        let d = ids.drop_last();
        assert forall|i: int, j: int| 0 <= i < j < d.len() implies spec_lex_lt(spec_utf8(#[trigger] d[i]), spec_utf8(#[trigger] d[j])) by {
            assert(d[i] == ids[i] && d[j] == ids[j]);
        }
        lemma_sorted_ids_ordered(d, kind);
        let a = spec_utf8(ids[ids.len() - 2]);
        let b = spec_utf8(ids[ids.len() - 1]);
        assert(spec_lex_lt(a, b));
        crate::cbor::keys::lemma_lex_irreflexive(a);
        if spec_lex_lt(b, a) {
            crate::cbor::keys::lemma_lex_transitive(a, b, a);
        }
    }
}

/// Reads a scope record, putting its nodes and edges in name order.
fn parse_scope_normalized(v: &Value, c: ScopeContext, limits: &Limits) -> (res: Result<Scope, GraphRecordError>)
    requires
        limits.spec_valid(),
    ensures
        spec_scope_normalized(*v, c, *limits, match res {
            Ok(s) => Ok::<ScopeModel, GraphRecordError>(s.spec_model()),
            Err(e) => Err::<ScopeModel, GraphRecordError>(e),
        }),
{
    let fields: [&'static str; 8] = ["carried", "edges", "inputs", "limits", "nodes", "outputs", "postconditions",
        "preconditions"];
    assert(fields@ == spec_scope_fields());
    let m = graph_closed(v, "scope", &fields)?;
    let nodes = match field_or_missing(m, "nodes")? {
        Value::Array(ns) => parse_nodes(ns, c, limits)?,
        _ => return Err(GraphRecordError::InvalidShape("nodes")),
    };
    let edges = match field_or_missing(m, "edges")? {
        Value::Array(xs) => parse_edges(xs, c)?,
        _ => return Err(GraphRecordError::InvalidShape("edges")),
    };
    if !nodes_distinct(&nodes) {
        return Err(GraphRecordError::DuplicateId("node"));
    }
    if !edges_distinct(&edges) {
        return Err(GraphRecordError::DuplicateId("edge"));
    }
    let ghost nm = spec_nodes_model(nodes@);
    let ghost em = spec_edges_model(edges@);
    let nodes = sort_nodes(nodes);
    let edges = sort_edges(edges);
    let ghost sn = spec_nodes_model(nodes@);
    let ghost se = spec_edges_model(edges@);
    proof {
        assert(spec_parse_scope_rest(m.entries@, *limits, nm, em) matches Ok(_) ==> spec_parse_scope_rest(m.entries@, *limits, sn, se) is Ok);
    }
    let f = parse_scope_rest(m, limits, nodes, edges)?;
    proof {
        let ids = spec_node_ids(sn);
        assert forall|i: int, j: int| 0 <= i < j < ids.len() implies spec_lex_lt(spec_utf8(#[trigger] ids[i]), spec_utf8(#[trigger] ids[j])) by {
            assert(ids[i] == sn[i].id && ids[j] == sn[j].id);
        }
        lemma_sorted_ids_ordered(ids, "node");
        let eids = spec_edge_ids(se);
        assert forall|i: int, j: int| 0 <= i < j < eids.len() implies spec_lex_lt(spec_utf8(#[trigger] eids[i]), spec_utf8(#[trigger] eids[j])) by {
            assert(eids[i] == se[i].0 && eids[j] == se[j].0);
        }
        lemma_sorted_ids_ordered(eids, "edge");
    }
    Ok(Scope { fields: f })
}

impl Scope {
    /// Makes a scope from authored fields: the record is built, then read
    /// back with its nodes and edges put in name order, refusing repeated
    /// names.
    pub fn new(fields: ScopeFields, context: ScopeContext, limits: &Limits) -> (res: Result<Scope, GraphRecordError>)
        ensures
            !limits.spec_valid() ==> res matches Err(GraphRecordError::Codec(_)),
            limits.spec_valid() ==> exists|r: Result<Value, GraphRecordError>|
                #[trigger] spec_scope_built(*limits, context, spec_scope_model(fields), r) && match r {
                    Err(e) => res == Err::<Scope, GraphRecordError>(e),
                    Ok(v) => spec_scope_normalized(v, context, *limits, match res {
                        Ok(s) => Ok::<ScopeModel, GraphRecordError>(s.spec_model()),
                        Err(e) => Err::<ScopeModel, GraphRecordError>(e),
                    }),
                },
    {
        let r = scope_value(&fields, context, limits);
        let v = match r {
            Ok(v) => v,
            Err(e) => {
                proof {
                    if limits.spec_valid() {
                        assert(spec_scope_built(*limits, context, spec_scope_model(fields), r));
                    }
                }
                return Err(e);
            },
        };
        proof { assert(spec_scope_built(*limits, context, spec_scope_model(fields), r)); }
        parse_scope_normalized(&v, context, limits)
    }
}

} // verus!
