//! Graph nodes: an operation with its declared ports, contracts and local
//! limits, as canonical records.

use vstd::prelude::*;
use vstd::string::*;

use super::edge::{field_or_missing, graph_closed, read_gid, spec_field_or_missing, spec_graph_closed, spec_read_gid};
use super::operation::{spec_operation_model, spec_parse_operation, Operation, OperationModel};
use super::{GraphRecordError, PortTable, ScopeContext};
use crate::cbor::limits::Limits;
use crate::cbor::value::{spec_utf8, Value};
use crate::expression::model::{spec_expr_model, ExprModel};
use crate::expression::reader::spec_read_expr;
use crate::expression::{Expression, ExpressionContext};
use crate::identifier::Identifier;
use crate::options::{spec_parse_limits, ExecutionLimits};
use crate::text::same_text;
use crate::types::model::{PortModel, TypeModel};
use crate::types::PrimitiveType;

verus! {

/// A node as mathematics: name, input and output tables, guard,
/// preconditions, postconditions, local limits and operation.
pub struct NodeModel {
    /// Local name.
    pub id: Seq<char>,
    /// Input declarations, in name order.
    pub inputs: Seq<(Seq<char>, PortModel)>,
    /// Output declarations, in name order.
    pub outputs: Seq<(Seq<char>, PortModel)>,
    /// Guard.
    pub guard: ExprModel,
    /// Preconditions.
    pub preconditions: ExprModel,
    /// Postconditions.
    pub postconditions: ExprModel,
    /// Local limits, one optional number per field.
    pub limits: Seq<Option<u64>>,
    /// Operation.
    pub operation: OperationModel,
}

/// The fields of a node record, in key order.
pub open spec fn spec_node_fields() -> Seq<&'static str> {
    seq!["guard", "id", "inputs", "limits", "operation", "outputs", "postconditions", "preconditions"]
}

/// The context in which an operation's postconditions are read.
pub open spec fn spec_post_context(o: OperationModel) -> ExpressionContext {
    match o {
        OperationModel::Scope(_) => ExpressionContext::WrapperPostconditions,
        OperationModel::Loop(..) => ExpressionContext::LoopPostconditions,
        _ => ExpressionContext::PrimitivePostconditions,
    }
}

/// Whether a name is an expression root that no node may take.
pub open spec fn spec_reserved_node_name(id: Seq<char>) -> bool {
    id == "inputs"@ || id == "outputs"@ || id == "carried"@ || id == "next"@ || id == "length"@
        || id == "present"@ || id == "status"@ || id == "error"@ || id == "render"@ || id == "mcp"@
        || id == "predicates"@
}

/// Whether a primitive operation's outputs are the single `value` port,
/// required unless the operation is an evaluation.
pub open spec fn spec_value_output_ok(outputs: Seq<(Seq<char>, PortModel)>, eval: bool) -> bool {
    outputs.len() == 1 && outputs[0].0 == "value"@ && (eval || outputs[0].1.required)
}

/// Whether a wait's inputs are the single required `request` port of JSON type.
pub open spec fn spec_wait_input_ok(inputs: Seq<(Seq<char>, PortModel)>) -> bool {
    inputs.len() == 1 && inputs[0].0 == "request"@ && inputs[0].1.required
        && inputs[0].1.ty == TypeModel::Primitive(PrimitiveType::Json)
}

/// Whether an MCP call's inputs are empty or the single required `arguments` port.
pub open spec fn spec_mcp_input_ok(inputs: Seq<(Seq<char>, PortModel)>) -> bool {
    inputs.len() == 0 || (inputs.len() == 1 && inputs[0].0 == "arguments"@ && inputs[0].1.required)
}

/// The local checks on a node: no reserved name, and the fixed port layout
/// of evaluations, MCP calls and waits.
pub open spec fn spec_validate_node(m: NodeModel) -> Result<(), GraphRecordError> {
    let primitive = m.operation is Eval || m.operation is Mcp || m.operation is Wait;
    if spec_reserved_node_name(m.id) {
        Err(GraphRecordError::ReservedNodeName)
    } else if primitive && !spec_value_output_ok(m.outputs, m.operation is Eval) {
        Err(GraphRecordError::InvalidPorts("primitive value output"))
    } else if m.operation is Wait && !spec_wait_input_ok(m.inputs) {
        Err(GraphRecordError::InvalidPorts("wait request input"))
    } else if m.operation is Mcp && !spec_mcp_input_ok(m.inputs) {
        Err(GraphRecordError::InvalidPorts("MCP arguments input"))
    } else {
        Ok(())
    }
}

/// Reading a node's tables, contracts and limits once its operation and
/// name are read.
pub open spec fn spec_parse_node_rest(es: Seq<(String, Value)>, c: ScopeContext, l: Limits, id: Seq<char>,
    op: OperationModel) -> Result<NodeModel, GraphRecordError> {
    match spec_field_or_missing(es, "inputs") {
        Err(e) => Err(e),
        Ok(iv) => match super::spec_parse_table(iv, l) {
            Err(e) => Err(e),
            Ok(inputs) => match spec_field_or_missing(es, "outputs") {
                Err(e) => Err(e),
                Ok(ov) => match super::spec_parse_table(ov, l) {
                    Err(e) => Err(e),
                    Ok(outputs) => match spec_field_or_missing(es, "guard") {
                        Err(e) => Err(e),
                        Ok(gv) => match spec_read_expr(gv, ExpressionContext::Guard { loop_body: c == ScopeContext::LoopBody }, false) {
                            Err(e) => Err(GraphRecordError::Expression(e)),
                            Ok(guard) => match spec_field_or_missing(es, "preconditions") {
                                Err(e) => Err(e),
                                Ok(pv) => match spec_read_expr(pv, ExpressionContext::Preconditions, false) {
                                    Err(e) => Err(GraphRecordError::Expression(e)),
                                    Ok(pre) => match spec_field_or_missing(es, "postconditions") {
                                        Err(e) => Err(e),
                                        Ok(qv) => match spec_read_expr(qv, spec_post_context(op), false) {
                                            Err(e) => Err(GraphRecordError::Expression(e)),
                                            Ok(post) => match spec_field_or_missing(es, "limits") {
                                                Err(e) => Err(e),
                                                Ok(lv) => match spec_parse_limits(lv) {
                                                    Err(e) => Err(GraphRecordError::Options(e)),
                                                    Ok(lim) => Ok(NodeModel { id, inputs, outputs, guard,
                                                        preconditions: pre, postconditions: post, limits: lim, operation: op }),
                                                },
                                            },
                                        },
                                    },
                                },
                            },
                        },
                    },
                },
            },
        },
    }
}

/// Reading a node record in scope context `c`: a closed map, its operation
/// first, then its name, tables, guard, contracts and limits, then the
/// local checks.
pub open spec fn spec_parse_node(v: Value, c: ScopeContext, l: Limits) -> Result<NodeModel, GraphRecordError> {
    match spec_graph_closed(v, "node", spec_node_fields()) {
        Err(e) => Err(e),
        Ok(es) => match spec_field_or_missing(es, "operation") {
            Err(e) => Err(e),
            Ok(ov) => match spec_parse_operation(ov) {
                Err(e) => Err(e),
                Ok(op) => match spec_field_or_missing(es, "id") {
                    Err(e) => Err(e),
                    Ok(iv) => match spec_read_gid(iv) {
                        Err(e) => Err(e),
                        Ok(id) => match spec_parse_node_rest(es, c, l, id, op) {
                            Err(e) => Err(e),
                            Ok(m) => match spec_validate_node(m) {
                                Err(e) => Err(e),
                                Ok(()) => Ok(m),
                            },
                        },
                    },
                },
            },
        },
    }
}

} // verus!

verus! {

/// Authored node fields, checked when a [`Node`] is made from them.
#[derive(Debug)]
pub struct NodeFields {
    /// Local node name; expression roots are refused.
    pub id: Identifier,
    /// Declared inputs.
    pub inputs: PortTable,
    /// Declared outputs.
    pub outputs: PortTable,
    /// Guard in the containing scope's guard context.
    pub guard: Expression,
    /// Precondition over the node's own inputs.
    pub preconditions: Expression,
    /// Postcondition in the operation's output context.
    pub postconditions: Expression,
    /// Local execution ceilings.
    pub limits: ExecutionLimits,
    /// The operation.
    pub operation: Operation,
}

/// The model of node fields.
pub open spec fn spec_node_model(f: NodeFields) -> NodeModel {
    NodeModel {
        id: f.id@,
        inputs: f.inputs.spec_model(),
        outputs: f.outputs.spec_model(),
        guard: spec_expr_model(f.guard),
        preconditions: spec_expr_model(f.preconditions),
        postconditions: spec_expr_model(f.postconditions),
        limits: f.limits.spec_values(),
        operation: spec_operation_model(f.operation),
    }
}

impl NodeFields {
    /// Starts a node with empty tables, empty limits and `true` contracts.
    pub fn new(id: Identifier, operation: Operation) -> (res: NodeFields)
        ensures
            spec_node_model(res) == (NodeModel {
                id: id@,
                inputs: Seq::empty(),
                outputs: Seq::empty(),
                guard: crate::expression::model::ExprModel::Literal(crate::expression::model::ScalarModel::Boolean(true)),
                preconditions: crate::expression::model::ExprModel::Literal(crate::expression::model::ScalarModel::Boolean(true)),
                postconditions: crate::expression::model::ExprModel::Literal(crate::expression::model::ScalarModel::Boolean(true)),
                limits: seq![None, None, None, None, None, None],
                operation: spec_operation_model(operation),
            }),
    {
        let inputs = PortTable::empty();
        let outputs = PortTable::empty();
        proof {
            assert(inputs.spec_model() =~= Seq::<(Seq<char>, PortModel)>::empty());
            assert(outputs.spec_model() =~= Seq::<(Seq<char>, PortModel)>::empty());
        }
        NodeFields {
            id,
            inputs,
            outputs,
            guard: Expression::literal(crate::expression::ScalarLiteral::Boolean(true)),
            preconditions: Expression::literal(crate::expression::ScalarLiteral::Boolean(true)),
            postconditions: Expression::literal(crate::expression::ScalarLiteral::Boolean(true)),
            limits: ExecutionLimits::new(),
            operation,
        }
    }
}

} // verus!

verus! {

use crate::expression::reader::parse_expr;
use crate::types::ValueTypeKind;

/// The context in which an operation's postconditions are read.
fn post_context(op: &Operation) -> (res: ExpressionContext)
    ensures
        res == spec_post_context(spec_operation_model(*op)),
{
    match op {
        Operation::Scope(_) => ExpressionContext::WrapperPostconditions,
        Operation::Loop { .. } => ExpressionContext::LoopPostconditions,
        _ => ExpressionContext::PrimitivePostconditions,
    }
}

/// Whether a name is an expression root.
fn reserved_node_name(id: &str) -> (res: bool)
    ensures
        res == spec_reserved_node_name(id@),
{
    same_text(id, "inputs") || same_text(id, "outputs") || same_text(id, "carried") || same_text(id, "next")
        || same_text(id, "length") || same_text(id, "present") || same_text(id, "status") || same_text(id, "error")
        || same_text(id, "render") || same_text(id, "mcp") || same_text(id, "predicates")
}

/// Checks a node's name and fixed port layout.
pub fn validate_node(f: &NodeFields) -> (res: Result<(), GraphRecordError>)
    ensures
        res == spec_validate_node(spec_node_model(*f)),
{
    let ghost m = spec_node_model(*f);
    if reserved_node_name(f.id.as_str()) {
        return Err(GraphRecordError::ReservedNodeName);
    }
    let eval = matches!(f.operation, Operation::Eval(_));
    let mcp = matches!(f.operation, Operation::Mcp { .. });
    let wait = matches!(f.operation, Operation::Wait { .. });
    let outs = f.outputs.iter();
    let ins = f.inputs.iter();
    proof {
        assert(outs@.len() == m.outputs.len());
        assert(ins@.len() == m.inputs.len());
        if outs@.len() > 0 {
            assert(m.outputs[0] == (outs@[0].0@, crate::types::model::spec_port_model(outs@[0].1)));
        }
        if ins@.len() > 0 {
            assert(m.inputs[0] == (ins@[0].0@, crate::types::model::spec_port_model(ins@[0].1)));
        }
    }
    if eval || mcp || wait {
        let ok = outs.len() == 1 && same_text(outs[0].0.as_str(), "value") && (eval || outs[0].1.required);
        if !ok {
            return Err(GraphRecordError::InvalidPorts("primitive value output"));
        }
    }
    if wait {
        let ok = ins.len() == 1 && same_text(ins[0].0.as_str(), "request") && ins[0].1.required
            && match &ins[0].1.value_type.kind {
                ValueTypeKind::Primitive(PrimitiveType::Json) => true,
                _ => false,
            };
        if !ok {
            return Err(GraphRecordError::InvalidPorts("wait request input"));
        }
    }
    if mcp {
        let ok = ins.len() == 0 || (ins.len() == 1 && same_text(ins[0].0.as_str(), "arguments") && ins[0].1.required);
        if !ok {
            return Err(GraphRecordError::InvalidPorts("MCP arguments input"));
        }
    }
    Ok(())
}

/// Reads a node's tables, contracts and limits.
fn parse_node_rest(m: &crate::cbor::value::ValueMap, c: ScopeContext, limits: &Limits, id: Identifier, operation: Operation)
    -> (res: Result<NodeFields, GraphRecordError>)
    requires
        limits.spec_valid(),
    ensures
        match spec_parse_node_rest(m.entries@, c, *limits, id@, spec_operation_model(operation)) {
            Ok(x) => res matches Ok(f) && spec_node_model(f) == x,
            Err(e) => res == Err::<NodeFields, GraphRecordError>(e),
        },
{
    let inputs = super::parse_table(field_or_missing(m, "inputs")?, limits)?;
    let outputs = super::parse_table(field_or_missing(m, "outputs")?, limits)?;
    let guard = match parse_expr(field_or_missing(m, "guard")?, c.guard(), false) {
        Ok(x) => x,
        Err(e) => return Err(GraphRecordError::Expression(e)),
    };
    let preconditions = match parse_expr(field_or_missing(m, "preconditions")?, ExpressionContext::Preconditions, false) {
        Ok(x) => x,
        Err(e) => return Err(GraphRecordError::Expression(e)),
    };
    let pc = post_context(&operation);
    let postconditions = match parse_expr(field_or_missing(m, "postconditions")?, pc, false) {
        Ok(x) => x,
        Err(e) => return Err(GraphRecordError::Expression(e)),
    };
    let lims = match ExecutionLimits::parse(field_or_missing(m, "limits")?) {
        Ok(x) => x,
        Err(e) => return Err(GraphRecordError::Options(e)),
    };
    Ok(NodeFields { id, inputs, outputs, guard, preconditions, postconditions, limits: lims, operation })
}

/// A checked node: its name is no expression root and its ports fit its
/// operation.
#[derive(Debug)]
pub struct Node {
    fields: NodeFields,
}

impl Node {
    #[verifier::type_invariant]
    spec fn checked(&self) -> bool {
        spec_validate_node(spec_node_model(self.fields)) is Ok
    }

    /// The node as mathematics.
    pub closed spec fn spec_model(&self) -> NodeModel {
        spec_node_model(self.fields)
    }

    /// Its fields.
    pub fn fields(&self) -> (res: &NodeFields)
        ensures
            spec_node_model(*res) == self.spec_model(),
            spec_validate_node(self.spec_model()) is Ok,
    {
        proof {
            use_type_invariant(self);
        }
        &self.fields
    }

    /// Its local name.
    pub fn id(&self) -> (res: &Identifier)
        ensures
            res@ == self.spec_model().id,
    {
        &self.fields.id
    }
}

/// Reads a node record in scope context `c`.
pub(crate) fn parse_node(v: &Value, c: ScopeContext, limits: &Limits) -> (res: Result<Node, GraphRecordError>)
    requires
        limits.spec_valid(),
    ensures
        match spec_parse_node(*v, c, *limits) {
            Ok(x) => res matches Ok(n) && n.spec_model() == x,
            Err(e) => res == Err::<Node, GraphRecordError>(e),
        },
{
    let fields: [&'static str; 8] = ["guard", "id", "inputs", "limits", "operation", "outputs", "postconditions",
        "preconditions"];
    assert(fields@ == spec_node_fields());
    let m = graph_closed(v, "node", &fields)?;
    let operation = super::operation::parse_operation(field_or_missing(m, "operation")?)?;
    let id = read_gid(field_or_missing(m, "id")?)?;
    let f = parse_node_rest(m, c, limits, id, operation)?;
    validate_node(&f)?;
    Ok(Node { fields: f })
}

impl Node {
    /// Bounds already decoded node data under the codec limits, then reads it
    /// in scope context `context`.
    pub fn from_value(v: &Value, context: ScopeContext, limits: &Limits) -> (res: Result<Node, GraphRecordError>)
        ensures
            !(limits.spec_valid() && crate::cbor::encode::spec_fits(*v, *limits)) ==> res matches Err(GraphRecordError::Codec(_)),
            limits.spec_valid() && crate::cbor::encode::spec_fits(*v, *limits) ==> match spec_parse_node(*v, context, *limits) {
                Ok(m) => res matches Ok(n) && n.spec_model() == m,
                Err(x) => res == Err::<Node, GraphRecordError>(x),
            },
    {
        if let Err(e) = crate::cbor::encode::encode(v, limits) {
            return Err(GraphRecordError::Codec(e));
        }
        parse_node(v, context, limits)
    }

    /// Decodes exactly one canonical node record in scope context `context`.
    pub fn decode(bytes: &[u8], context: ScopeContext, limits: &Limits) -> (res: Result<Node, GraphRecordError>)
        ensures
            !limits.spec_valid() ==> res matches Err(GraphRecordError::Codec(_)),
            res matches Ok(n) ==> exists|w: Value| #[trigger] crate::cbor::value::spec_encode(w) == bytes@
                && spec_parse_node(w, context, *limits) == Ok::<NodeModel, GraphRecordError>(n.spec_model()),
            limits.spec_valid() && (exists|x: Value| #[trigger] crate::cbor::value::spec_encode(x) == bytes@
                && crate::cbor::value::spec_wf(x) && crate::cbor::value::spec_height(x) <= limits.max_depth
                && bytes@.len() <= limits.max_document_bytes) ==> exists|w: Value|
                #[trigger] crate::cbor::value::spec_encode(w) == bytes@ && crate::cbor::value::spec_wf(w)
                && (match spec_parse_node(w, context, *limits) {
                    Ok(m) => res matches Ok(n) && n.spec_model() == m,
                    Err(x) => res == Err::<Node, GraphRecordError>(x),
                }),
    {
        let v = match crate::cbor::decode::decode(bytes, limits) {
            Ok(v) => v,
            Err(e) => return Err(GraphRecordError::Codec(e)),
        };
        proof { assert(crate::cbor::value::spec_encode(v) == bytes@ && crate::cbor::value::spec_wf(v)); }
        parse_node(&v, context, limits)
    }
}

} // verus!

verus! {

use super::edge::spec_is_gtext;
use super::operation::{spec_limit_failure, spec_operation_built, spec_operation_record};
use super::{spec_grun, spec_table_record, spec_table_steps};
use crate::expression::model::{spec_erun, spec_expr_record, spec_expr_steps};
use crate::options::{spec_limit_error, spec_limits_charges, spec_limits_record};
use crate::record_accounting::{spec_charges, spec_value_charges, RecordAccounting};

/// Entry `i` of `built` is field `i` of the node `m`, in building order.
pub open spec fn spec_node_entries(built: Seq<(String, Value)>, m: NodeModel) -> bool {
    &&& built.len() == 8
    &&& built[0].0@ == "id"@ && spec_is_gtext(built[0].1, m.id)
    &&& built[1].0@ == "inputs"@ && spec_table_record(built[1].1, m.inputs)
    &&& built[2].0@ == "outputs"@ && spec_table_record(built[2].1, m.outputs)
    &&& built[3].0@ == "guard"@ && spec_expr_record(built[3].1, m.guard)
    &&& built[4].0@ == "preconditions"@ && spec_expr_record(built[4].1, m.preconditions)
    &&& built[5].0@ == "postconditions"@ && spec_expr_record(built[5].1, m.postconditions)
    &&& built[6].0@ == "limits"@ && spec_limits_record(built[6].1, m.limits)
    &&& built[7].0@ == "operation"@ && spec_operation_record(built[7].1, m.operation)
}

/// The canonical node record: a map in canonical key order of its fields.
pub open spec fn spec_node_record(v: Value, m: NodeModel) -> bool {
    v matches Value::Object(map) && crate::cbor::value::spec_keys_sorted(map.entries@)
        && exists|built: Seq<(String, Value)>| #[trigger] built.to_multiset() == map.entries@.to_multiset()
            && spec_node_entries(built, m)
}

/// What building the record of node `m` in scope context `c` under valid
/// limits gives: the local checks first, then each nested record in field
/// order on its own accounting, then the whole record bounded.
#[verifier::opaque]
pub open spec fn spec_node_built(l: Limits, c: ScopeContext, m: NodeModel, res: Result<Value, GraphRecordError>) -> bool {
    match spec_validate_node(m) {
        Err(e) => res == Err::<Value, GraphRecordError>(e),
        Ok(()) => match spec_grun(l, (0, 0, 0), spec_table_steps(l, m.inputs)) {
            Err(e) => res == Err::<Value, GraphRecordError>(e),
            Ok(_) => match spec_grun(l, (0, 0, 0), spec_table_steps(l, m.outputs)) {
                Err(e) => res == Err::<Value, GraphRecordError>(e),
                Ok(_) => match spec_erun(l, (0, 0, 0), spec_expr_steps(m.guard,
                    ExpressionContext::Guard { loop_body: c == ScopeContext::LoopBody }, 0)) {
                    Err(e) => res == Err::<Value, GraphRecordError>(GraphRecordError::Expression(e)),
                    Ok(_) => match spec_erun(l, (0, 0, 0), spec_expr_steps(m.preconditions, ExpressionContext::Preconditions, 0)) {
                        Err(e) => res == Err::<Value, GraphRecordError>(GraphRecordError::Expression(e)),
                        Ok(_) => match spec_erun(l, (0, 0, 0), spec_expr_steps(m.postconditions, spec_post_context(m.operation), 0)) {
                            Err(e) => res == Err::<Value, GraphRecordError>(GraphRecordError::Expression(e)),
                            Ok(_) => match spec_charges(l, (0, 0, 0), spec_limits_charges(m.limits)) {
                                Err(e) => res == Err::<Value, GraphRecordError>(GraphRecordError::Options(spec_limit_error(e))),
                                Ok(_) => exists|r: Result<Value, GraphRecordError>| #[trigger] spec_operation_built(l, m.operation, r)
                                    && match r {
                                        Err(e) => res == Err::<Value, GraphRecordError>(e),
                                        Ok(_) => exists|v: Value| #[trigger] spec_node_record(v, m)
                                            && match spec_charges(l, (0, 0, 0), spec_value_charges(v, 0)) {
                                                Ok(_) => res matches Ok(w) && spec_node_record(w, m),
                                                Err(x) => res == Err::<Value, GraphRecordError>(spec_limit_failure(x)),
                                            },
                                    },
                            },
                        },
                    },
                },
            },
        },
    }
}

/// Builds a node record from its fields.
#[verifier::rlimit(80)]
fn node_value(f: &NodeFields, c: ScopeContext, limits: &Limits) -> (res: Result<Value, GraphRecordError>)
    ensures
        !limits.spec_valid() ==> res matches Err(GraphRecordError::Codec(_)),
        limits.spec_valid() ==> spec_node_built(*limits, c, spec_node_model(*f), res),
{
    let mut acc = match RecordAccounting::new(limits) {
        Ok(a) => a,
        Err(e) => return Err(GraphRecordError::Codec(e)),
    };
    let ghost m = spec_node_model(*f);
    proof {
        reveal(spec_node_built);
    }
    validate_node(f)?;
    let iv = f.inputs.to_value(limits)?;
    let ov = f.outputs.to_value(limits)?;
    let gv = match f.guard.to_value(c.guard(), limits) {
        Ok(v) => v,
        Err(e) => return Err(GraphRecordError::Expression(e)),
    };
    let pv = match f.preconditions.to_value(ExpressionContext::Preconditions, limits) {
        Ok(v) => v,
        Err(e) => return Err(GraphRecordError::Expression(e)),
    };
    let pc = post_context(&f.operation);
    let qv = match f.postconditions.to_value(pc, limits) {
        Ok(v) => v,
        Err(e) => return Err(GraphRecordError::Expression(e)),
    };
    let lv = match f.limits.to_value(limits) {
        Ok(v) => v,
        Err(e) => return Err(GraphRecordError::Options(e)),
    };
    let opr = f.operation.to_value(limits);
    let opv = match opr {
        Ok(v) => v,
        Err(e) => {
            proof { assert(spec_operation_built(*limits, m.operation, opr)); }
            return Err(e);
        },
    };
    proof { assert(spec_operation_built(*limits, m.operation, opr)); }
    let mut built: Vec<(String, Value)> = Vec::new();
    built.push((String::from_str("id"), Value::Text(String::from_str(f.id.as_str()))));
    built.push((String::from_str("inputs"), iv));
    built.push((String::from_str("outputs"), ov));
    built.push((String::from_str("guard"), gv));
    built.push((String::from_str("preconditions"), pv));
    built.push((String::from_str("postconditions"), qv));
    built.push((String::from_str("limits"), lv));
    built.push((String::from_str("operation"), opv));
    proof {
        reveal_strlit("id");
        reveal_strlit("inputs");
        reveal_strlit("outputs");
        reveal_strlit("guard");
        reveal_strlit("preconditions");
        reveal_strlit("postconditions");
        reveal_strlit("limits");
        reveal_strlit("operation");
        assert("id"@.len() == 2 && "id"@[0] == 'i' && "id"@[1] == 'd');
        assert("inputs"@.len() == 6 && "inputs"@[0] == 'i' && "inputs"@[1] == 'n');
        assert("outputs"@.len() == 7 && "outputs"@[0] == 'o');
        assert("guard"@.len() == 5);
        assert("preconditions"@.len() == 13 && "preconditions"@[1] == 'r');
        assert("postconditions"@.len() == 14);
        assert("limits"@.len() == 6 && "limits"@[0] == 'l');
        assert("operation"@.len() == 9 && "operation"@[0] == 'o');
        assert forall|i: int, j: int| 0 <= i < j < built@.len() implies spec_utf8(#[trigger] built@[i].0@)
            != spec_utf8(#[trigger] built@[j].0@) by {
            if spec_utf8(built@[i].0@) == spec_utf8(built@[j].0@) {
                crate::types::model::lemma_utf8_injective(built@[i].0@, built@[j].0@);
            }
        }
        assert(spec_node_entries(built@, m));
    }
    let ghost bv = built@;
    let map = match crate::cbor::value::ValueMap::try_from_entries(built) {
        Ok(x) => x,
        Err(e) => return Err(GraphRecordError::Codec(e)),
    };
    let v = Value::Object(map);
    proof {
        assert(bv.to_multiset() == map.entries@.to_multiset());
        assert(spec_node_record(v, m));
    }
    match acc.value(&v, 0) {
        Ok(()) => {},
        Err(e) => return Err(GraphRecordError::LimitExceeded { limit: e.limit, maximum: e.maximum }),
    }
    Ok(v)
}

} // verus!

verus! {

use crate::digest::{record_digest, spec_record_prefix, spec_sha256, Digest, RecordKind};

impl Node {
    /// Produces the canonical record in scope context `context`.
    pub fn to_value(&self, context: ScopeContext, limits: &Limits) -> (res: Result<Value, GraphRecordError>)
        ensures
            !limits.spec_valid() ==> res matches Err(GraphRecordError::Codec(_)),
            limits.spec_valid() ==> spec_node_built(*limits, context, self.spec_model(), res),
    {
        node_value(&self.fields, context, limits)
    }

    /// Checks and normalizes authored fields: the record is built, then read
    /// back, so initializers and tables come back in name order.
    pub fn new(fields: NodeFields, context: ScopeContext, limits: &Limits) -> (res: Result<Node, GraphRecordError>)
        ensures
            !limits.spec_valid() ==> res matches Err(GraphRecordError::Codec(_)),
            limits.spec_valid() ==> exists|r: Result<Value, GraphRecordError>|
                #[trigger] spec_node_built(*limits, context, spec_node_model(fields), r) && match r {
                    Err(e) => res == Err::<Node, GraphRecordError>(e),
                    Ok(v) => match spec_parse_node(v, context, *limits) {
                        Ok(x) => res matches Ok(n) && n.spec_model() == x,
                        Err(e) => res == Err::<Node, GraphRecordError>(e),
                    },
                },
    {
        let r = node_value(&fields, context, limits);
        let v = match r {
            Ok(v) => v,
            Err(e) => {
                proof {
                    if limits.spec_valid() {
                        assert(spec_node_built(*limits, context, spec_node_model(fields), r));
                    }
                }
                return Err(e);
            },
        };
        proof { assert(spec_node_built(*limits, context, spec_node_model(fields), r)); }
        parse_node(&v, context, limits)
    }

    /// Encodes one canonical node record.
    pub fn encode(&self, context: ScopeContext, limits: &Limits) -> (res: Result<Vec<u8>, GraphRecordError>)
        ensures
            !limits.spec_valid() ==> res matches Err(GraphRecordError::Codec(_)),
            limits.spec_valid() ==> exists|r: Result<Value, GraphRecordError>|
                #[trigger] spec_node_built(*limits, context, self.spec_model(), r) && match r {
                    Err(e) => res == Err::<Vec<u8>, GraphRecordError>(e),
                    Ok(v) => (crate::cbor::encode::spec_fits(v, *limits) <==> res is Ok)
                        && (res matches Ok(b) ==> b@ == crate::cbor::value::spec_encode(v)),
                },
    {
        let r = self.to_value(context, limits);
        let v = match r {
            Ok(v) => v,
            Err(e) => return Err(e),
        };
        match crate::cbor::encode::encode(&v, limits) {
            Ok(b) => Ok(b),
            Err(e) => Err(GraphRecordError::Codec(e)),
        }
    }

    /// The node's identity: its record hashed under the node domain.
    pub fn digest(&self, context: ScopeContext, limits: &Limits) -> (res: Result<Digest, GraphRecordError>)
        ensures
            !limits.spec_valid() ==> res matches Err(GraphRecordError::Codec(_)),
            limits.spec_valid() ==> exists|r: Result<Value, GraphRecordError>|
                #[trigger] spec_node_built(*limits, context, self.spec_model(), r) && match r {
                    Err(e) => res == Err::<Digest, GraphRecordError>(e),
                    Ok(v) => (res is Ok <==> crate::cbor::value::spec_encode(v).len() <= limits.max_document_bytes
                            && crate::cbor::value::spec_height(v) <= limits.max_depth)
                        && (res matches Ok(d) ==> d@ == spec_sha256(spec_record_prefix(RecordKind::Node)
                            + crate::cbor::value::spec_encode(v)))
                        && (res matches Err(x) ==> x is Codec),
                },
    {
        let r = self.to_value(context, limits);
        let v = match r {
            Ok(v) => v,
            Err(e) => return Err(e),
        };
        match record_digest(RecordKind::Node, &v, limits) {
            Ok(d) => Ok(d),
            Err(e) => Err(GraphRecordError::Codec(e)),
        }
    }
}

} // verus!

verus! {

/// An MCP node whose name is no expression root, whose outputs are the one
/// required port `value`, and whose inputs are either none or the one
/// required port `arguments`, passes the local checks; with any other single
/// input, or an optional `arguments`, it is refused for its inputs.
pub proof fn lemma_mcp_node_ports(m: NodeModel)
    requires
        m.operation is Mcp,
        !spec_reserved_node_name(m.id),
        m.outputs.len() == 1,
        m.outputs[0].0 == "value"@,
        m.outputs[0].1.required,
    ensures
        (m.inputs.len() == 0 || (m.inputs.len() == 1 && m.inputs[0].0 == "arguments"@ && m.inputs[0].1.required))
            ==> spec_validate_node(m) == Ok::<(), GraphRecordError>(()),
        (m.inputs.len() == 1 && !(m.inputs[0].0 == "arguments"@ && m.inputs[0].1.required))
            ==> spec_validate_node(m) == Err::<(), GraphRecordError>(GraphRecordError::InvalidPorts("MCP arguments input")),
{
}

} // verus!

verus! {

/// Expression roots never name a node: every node named `inputs`,
/// `outputs`, `carried`, `next`, `length`, `present`, `status`, `error`,
/// `render`, `mcp` or `predicates` is refused, whatever its ports.
pub proof fn lemma_reserved_names_refused(m: NodeModel)
    requires
        m.id == "inputs"@ || m.id == "outputs"@ || m.id == "carried"@ || m.id == "next"@ || m.id == "length"@
            || m.id == "present"@ || m.id == "status"@ || m.id == "error"@ || m.id == "render"@ || m.id == "mcp"@
            || m.id == "predicates"@,
    ensures
        spec_validate_node(m) == Err::<(), GraphRecordError>(GraphRecordError::ReservedNodeName),
{
}

/// An evaluation node with a non-root name and the one output `value`,
/// required or not, passes the local checks whatever its inputs.
pub proof fn lemma_eval_node_ports(m: NodeModel)
    requires
        m.operation is Eval,
        !spec_reserved_node_name(m.id),
        m.outputs.len() == 1,
        m.outputs[0].0 == "value"@,
    ensures
        spec_validate_node(m) == Ok::<(), GraphRecordError>(()),
{
}

/// A wait node with a non-root name, the one required output `value` and
/// the one required JSON input `request` passes the local checks; with any
/// other single input it is refused for its inputs.
pub proof fn lemma_wait_node_ports(m: NodeModel)
    requires
        m.operation is Wait,
        !spec_reserved_node_name(m.id),
        m.outputs.len() == 1,
        m.outputs[0].0 == "value"@,
        m.outputs[0].1.required,
    ensures
        (m.inputs.len() == 1 && m.inputs[0].0 == "request"@ && m.inputs[0].1.required
            && m.inputs[0].1.ty == TypeModel::Primitive(PrimitiveType::Json))
            ==> spec_validate_node(m) == Ok::<(), GraphRecordError>(()),
        (m.inputs.len() == 1 && !(m.inputs[0].0 == "request"@ && m.inputs[0].1.required
            && m.inputs[0].1.ty == TypeModel::Primitive(PrimitiveType::Json)))
            ==> spec_validate_node(m) == Err::<(), GraphRecordError>(GraphRecordError::InvalidPorts("wait request input")),
{
}

/// A primitive node (evaluation, MCP call or wait) whose outputs are not the
/// single port `value` is refused for its outputs; loops and nested scopes
/// with a non-root name pass whatever their ports.
pub proof fn lemma_primitive_outputs(m: NodeModel)
    requires
        !spec_reserved_node_name(m.id),
    ensures
        ((m.operation is Eval || m.operation is Mcp || m.operation is Wait)
            && !(m.outputs.len() == 1 && m.outputs[0].0 == "value"@))
            ==> spec_validate_node(m) == Err::<(), GraphRecordError>(GraphRecordError::InvalidPorts("primitive value output")),
        (m.operation is Loop || m.operation is Scope) ==> spec_validate_node(m) == Ok::<(), GraphRecordError>(()),
{
}

} // verus!
