//! Canonical expression vocabulary and prompt-template metadata, without evaluation.

pub mod builder;
pub mod canonical;
pub mod model;
pub mod reader;
pub mod template;

use vstd::prelude::*;
use vstd::string::*;

use crate::cbor::value::FiniteFloat;
use crate::digest::Digest;
use crate::identifier::Identifier;
use crate::text::same_text;

pub use template::{PromptTemplate, TemplatePart};

verus! {

/// The owning expression location, chosen by the consuming schema.
#[derive(Clone, Copy, Debug, PartialEq, Eq, Structural)]
pub enum ExpressionContext {
    /// A node/edge guard in its containing scope.
    Guard {
        /// Whether that scope is a loop body with carried values.
        loop_body: bool,
    },
    /// A pure node's calculation; only its own input roots.
    Eval,
    /// A node/scope precondition; only its own input roots.
    Preconditions,
    /// A primitive node's input and proposed-output postcondition.
    PrimitivePostconditions,
    /// A task/root scope's inputs, proposed outputs, and child outcomes.
    ScopePostconditions,
    /// A use-node wrapper's inputs and proposed outputs.
    WrapperPostconditions,
    /// A loop termination test after its body settles.
    LoopUntil,
    /// A loop's inputs and final proposed outputs.
    LoopPostconditions,
}

/// A scalar constant; collections have separate expression constructors.
#[derive(Debug)]
pub enum ScalarLiteral {
    /// Exact Unicode text.
    String(String),
    /// Signed 64-bit integer.
    Integer(i64),
    /// Finite, positive-zero-normalized floating point.
    Float(FiniteFloat),
    /// Boolean.
    Boolean(bool),
    /// Explicit null, never absence.
    Null,
    /// Opaque bytes.
    Bytes(Vec<u8>),
}

/// A statically named value root, resolved relative to the owning scope/node.
#[derive(Clone, Debug, PartialEq, Eq, PartialOrd, Ord)]
pub enum ValueReference {
    /// The owning input named by its port.
    Input(Identifier),
    /// A sibling/body node's output.
    Output {
        /// Local node name.
        node: Identifier,
        /// Output port name.
        port: Identifier,
    },
    /// A proposed output of the current node/scope boundary.
    ScopeOutput(Identifier),
    /// A loop-carried value.
    Carried(Identifier),
    /// A proposed next value, readable only by loop termination tests.
    Next(Identifier),
}

/// One literal field/index selection in a projection path.
#[derive(Clone, Debug, PartialEq, Eq, PartialOrd, Ord)]
pub enum PathStep {
    /// Exact field name, including arbitrary Unicode or empty text.
    Field(String),
    /// Zero-based index, checked to fit 0..=i64::MAX at expression boundaries.
    Index(u64),
}

/// Closed ordinary core-call identifiers; other core forms have dedicated tags.
#[derive(Clone, Copy, Debug, PartialEq, Eq, Structural)]
pub enum CoreFunction {
    /// Length of a supported value.
    Length,
    /// Settled optional presence; present null is present.
    Present,
}

/// Exact callable identity, resolved by the compiler rather than input data.
#[derive(Clone, Debug, PartialEq, Eq)]
pub enum FunctionId {
    /// One of the supported single-argument core functions.
    Core(CoreFunction),
    /// A linked library function.
    Library {
        /// Exact library implementation identity.
        library: Digest,
        /// Function's local registry name.
        name: Identifier,
    },
}

/// The supported Boolean/comparison operators. Operand order is semantic.
#[derive(Clone, Copy, Debug, PartialEq, Eq, Structural)]
pub enum BinaryOperator {
    /// Lazy left-to-right conjunction.
    And,
    /// Lazy left-to-right disjunction.
    Or,
    /// Equality.
    Eq,
    /// Inequality.
    Ne,
    /// Less than.
    Lt,
    /// Less than or equal.
    Le,
    /// Greater than.
    Gt,
    /// Greater than or equal.
    Ge,
}

/// The exact canonical tag of an operator.
pub open spec fn spec_operator_tag(op: BinaryOperator) -> Seq<char> {
    match op {
        BinaryOperator::And => "and"@,
        BinaryOperator::Or => "or"@,
        BinaryOperator::Eq => "eq"@,
        BinaryOperator::Ne => "ne"@,
        BinaryOperator::Lt => "lt"@,
        BinaryOperator::Le => "le"@,
        BinaryOperator::Gt => "gt"@,
        BinaryOperator::Ge => "ge"@,
    }
}

/// Distinct operators have distinct tags, so a tag reads back as its operator.
pub proof fn lemma_operator_tags_distinct(a: BinaryOperator, b: BinaryOperator)
    ensures
        spec_operator_tag(a) == spec_operator_tag(b) ==> a == b,
{
    reveal_strlit("and");
    reveal_strlit("or");
    reveal_strlit("eq");
    reveal_strlit("ne");
    reveal_strlit("lt");
    reveal_strlit("le");
    reveal_strlit("gt");
    reveal_strlit("ge");
    if spec_operator_tag(a) == spec_operator_tag(b) {
        let x = spec_operator_tag(a);
        let y = spec_operator_tag(b);
        assert(x.len() == y.len());
        assert(x[0] == y[0]);
        assert(x[1] == y[1]);
    }
}

impl BinaryOperator {
    /// Exact canonical operator tag.
    pub fn as_str(self) -> (res: &'static str)
        ensures
            res@ == spec_operator_tag(self),
    {
        match self {
            BinaryOperator::And => "and",
            BinaryOperator::Or => "or",
            BinaryOperator::Eq => "eq",
            BinaryOperator::Ne => "ne",
            BinaryOperator::Lt => "lt",
            BinaryOperator::Le => "le",
            BinaryOperator::Gt => "gt",
            BinaryOperator::Ge => "ge",
        }
    }

    /// Reads an exact canonical operator tag.
    pub fn parse(tag: &str) -> (res: Option<BinaryOperator>)
        ensures
            res matches Some(op) ==> spec_operator_tag(op) == tag@,
            res is None ==> forall|op: BinaryOperator| spec_operator_tag(op) != tag@,
            forall|op: BinaryOperator| spec_operator_tag(op) == tag@ ==> res == Some(op),
    {
        let all = [
            BinaryOperator::And,
            BinaryOperator::Or,
            BinaryOperator::Eq,
            BinaryOperator::Ne,
            BinaryOperator::Lt,
            BinaryOperator::Le,
            BinaryOperator::Gt,
            BinaryOperator::Ge,
        ];
        let mut i: usize = 0;
        while i < 8
            invariant
                i <= 8,
                all@ == seq![
                    BinaryOperator::And,
                    BinaryOperator::Or,
                    BinaryOperator::Eq,
                    BinaryOperator::Ne,
                    BinaryOperator::Lt,
                    BinaryOperator::Le,
                    BinaryOperator::Gt,
                    BinaryOperator::Ge,
                ],
                forall|k: int| 0 <= k < i ==> spec_operator_tag(#[trigger] all@[k]) != tag@,
            decreases 8 - i,
        {
            let op = all[i];
            if same_text(op.as_str(), tag) {
                proof {
                    assert forall|o: BinaryOperator| spec_operator_tag(o) == tag@ implies o == op by {
                        lemma_operator_tags_distinct(o, op);
                    }
                }
                return Some(op);
            }
            i = i + 1;
        }
        proof {
            assert forall|op: BinaryOperator| spec_operator_tag(op) != tag@ by {
                let k: int = match op {
                    BinaryOperator::And => 0,
                    BinaryOperator::Or => 1,
                    BinaryOperator::Eq => 2,
                    BinaryOperator::Ne => 3,
                    BinaryOperator::Lt => 4,
                    BinaryOperator::Le => 5,
                    BinaryOperator::Gt => 6,
                    BinaryOperator::Ge => 7,
                };
                assert(all@[k] == op);
            }
        }
        None
    }
}

} // verus!

verus! {

/// Expression/template record validation and bounded-conversion failure.
/// Only static schema descriptions are retained, not untrusted input contents.
#[derive(Debug)]
#[non_exhaustive]
pub enum ExpressionError {
    /// Underlying canonical CBOR failure, with unsorted offsets.
    Codec(crate::cbor::error::Error),
    /// Malformed identifier.
    Identifier(crate::identifier::ParseIdentifierError),
    /// Malformed digest.
    Digest(crate::digest::ParseDigestError),
    /// Invalid template parameter port/type record.
    Type(crate::types::model::TypeError),
    /// Incorrect record/array/scalar shape at a fixed schema site.
    InvalidShape(&'static str),
    /// Unknown expression constructor.
    UnknownConstructor,
    /// Unknown function-identity form or core function.
    UnknownFunction,
    /// Index outside the nonnegative signed-i64 range.
    InvalidIndex,
    /// Unknown or repeated regex flags.
    InvalidRegexFlags,
    /// Duplicate exact record/argument/parameter name.
    DuplicateField,
    /// Canonical ingress violated a normalization rule.
    NonCanonical(&'static str),
    /// A reference/outcome category is forbidden at this expression location.
    ForbiddenReference(&'static str),
    /// Template parameter type is not string, integer, or Boolean.
    InvalidTemplateParameter,
    /// Parameter names do not exactly cover distinct template slots.
    TemplateParameterMismatch,
    /// Conversion would exceed a codec ceiling.
    LimitExceeded {
        /// Exhausted resource.
        limit: crate::cbor::error::LimitKind,
        /// Configured ceiling.
        maximum: usize,
    },
    /// Fallible storage reservation failed.
    AllocationFailed,
}

} // verus!

verus! {

/// Authored shape or read-only normalized expression view.
#[derive(Debug)]
pub enum ExpressionKind {
    /// A scalar constant.
    Literal(ScalarLiteral),
    /// Pattern and flags; engine compilation belongs to the pinned verifier.
    Regex {
        /// Exact decoded pattern text.
        pattern: String,
        /// Unique flags; authored permutations normalize to `ims` order.
        flags: String,
    },
    /// Read a named value with an optional folded projection path.
    Ref {
        /// Named root.
        source: ValueReference,
        /// Zero or more field/index selections.
        path: Vec<PathStep>,
    },
    /// Project a non-reference expression result; the path must be nonempty.
    Get {
        /// Base expression.
        value: Box<Expression>,
        /// One or more selections.
        path: Vec<PathStep>,
    },
    /// Elements in evaluation order.
    List(Vec<Expression>),
    /// Fields normalized to decoded-key UTF-8 evaluation order.
    Record(Vec<(String, Expression)>),
    /// A pure call with positional argument expressions.
    Call {
        /// Resolved function identity.
        function: FunctionId,
        /// Arguments in semantic order.
        arguments: Vec<Expression>,
    },
    /// Static library callable metadata, not an ordinary application value.
    FunctionRef {
        /// Library implementation identity.
        library: Digest,
        /// Local function name.
        name: Identifier,
    },
    /// A referenced template and exact named argument expressions.
    Render {
        /// Template content digest.
        template: Digest,
        /// Identifier-keyed arguments, exposed in UTF-8 evaluation order.
        arguments: Vec<(Identifier, Expression)>,
    },
    /// Terminal node status inspection.
    Status(Identifier),
    /// Terminal node error inspection.
    Error(Identifier),
    /// Boolean negation.
    Not(Box<Expression>),
    /// Boolean or scalar comparison.
    Binary {
        /// Operator tag.
        operator: BinaryOperator,
        /// Left operand, evaluated first.
        left: Box<Expression>,
        /// Right operand, retained even when evaluation may short circuit.
        right: Box<Expression>,
    },
}

/// Immutable canonical expression metadata with reference-category checks.
///
/// This does not evaluate, resolve names, infer types, compile regex
/// engines, or validate callback placement. Function references remain
/// explicit nodes, never a scalar literal.
#[derive(Debug)]
pub struct Expression {
    /// The expression's shape.
    pub kind: Box<ExpressionKind>,
}

impl Expression {
    /// The shape of this expression.
    pub closed spec fn spec_kind(&self) -> ExpressionKind {
        *self.kind
    }

    /// Constructs a scalar leaf, valid in every reference context; its size
    /// is checked when it is embedded, converted or encoded.
    pub fn literal(value: ScalarLiteral) -> (res: Expression)
        ensures
            res.spec_kind() == ExpressionKind::Literal(value),
            model::spec_expr_model(res) == model::ExprModel::Literal(model::spec_scalar_model(value)),
    {
        Expression { kind: Box::new(ExpressionKind::Literal(value)) }
    }

    /// Borrows the immutable normalized shape.
    pub fn kind(&self) -> (res: &ExpressionKind)
        ensures
            *res == self.spec_kind(),
    {
        &self.kind
    }
}

} // verus!


verus! {

impl Expression {
    /// Normalizes an authored shape: its record is built under the limits in
    /// context `context`, read back repairing paths, record field order and
    /// regex flag order, and the repaired expression is bounded again.
    pub fn new(kind: ExpressionKind, context: ExpressionContext, limits: &crate::cbor::limits::Limits)
        -> (res: Result<Expression, ExpressionError>)
        ensures
            !limits.spec_valid() ==> res matches Err(ExpressionError::Codec(_)),
            limits.spec_valid() ==> match model::spec_erun(*limits, (0, 0, 0),
                model::spec_expr_steps(model::spec_kind_model(kind), context, 0)) {
                Err(e) => res == Err::<Expression, ExpressionError>(e),
                Ok(_) => exists|v: crate::cbor::value::Value| #[trigger] model::spec_expr_record(v, model::spec_kind_model(kind))
                    && match reader::spec_read_expr(v, context, true) {
                        Err(e) => res == Err::<Expression, ExpressionError>(e),
                        Ok(m) => match model::spec_erun(*limits, (0, 0, 0), model::spec_expr_steps(m, context, 0)) {
                            Ok(_) => res matches Ok(x) && model::spec_expr_model(x) == m,
                            Err(e) => res == Err::<Expression, ExpressionError>(e),
                        },
                    },
            },
    {
        let authored = Expression { kind: Box::new(kind) };
        let value = authored.to_value(context, limits)?;
        let result = reader::parse_expr(&value, context, true)?;
        result.to_value(context, limits)?;
        Ok(result)
    }

    /// Builds the canonical record in context `context`, bounding every value
    /// against the limits before it is produced.
    pub fn to_value(&self, context: ExpressionContext, limits: &crate::cbor::limits::Limits)
        -> (res: Result<crate::cbor::value::Value, ExpressionError>)
        ensures
            !limits.spec_valid() ==> res matches Err(ExpressionError::Codec(_)),
            limits.spec_valid() ==> match model::spec_erun(*limits, (0, 0, 0),
                model::spec_expr_steps(model::spec_expr_model(*self), context, 0)) {
                Ok(_) => res matches Ok(v) && model::spec_expr_record(v, model::spec_expr_model(*self)),
                Err(e) => res == Err::<crate::cbor::value::Value, ExpressionError>(e),
            },
    {
        let mut acc = match crate::record_accounting::RecordAccounting::new(limits) {
            Ok(a) => a,
            Err(e) => return Err(ExpressionError::Codec(e)),
        };
        builder::build_expr(&mut acc, context, self, 0)
    }

    /// Bounds an already decoded record under the codec limits, then reads it
    /// canonically in context `context`, without repairing its structure.
    pub fn from_value(value: &crate::cbor::value::Value, context: ExpressionContext, limits: &crate::cbor::limits::Limits)
        -> (res: Result<Expression, ExpressionError>)
        ensures
            !(limits.spec_valid() && crate::cbor::encode::spec_fits(*value, *limits))
                ==> res matches Err(ExpressionError::Codec(_)),
            limits.spec_valid() && crate::cbor::encode::spec_fits(*value, *limits)
                ==> match reader::spec_read_expr(*value, context, false) {
                Ok(m) => res matches Ok(x) && model::spec_expr_model(x) == m,
                Err(e) => res == Err::<Expression, ExpressionError>(e),
            },
    {
        if let Err(e) = crate::cbor::encode::encode(value, limits) {
            return Err(ExpressionError::Codec(e));
        }
        reader::parse_expr(value, context, false)
    }

    /// Encodes one canonical expression record in context `context`.
    pub fn encode(&self, context: ExpressionContext, limits: &crate::cbor::limits::Limits)
        -> (res: Result<Vec<u8>, ExpressionError>)
        ensures
            !limits.spec_valid() ==> res matches Err(ExpressionError::Codec(_)),
            limits.spec_valid() ==> (model::spec_erun(*limits, (0, 0, 0),
                model::spec_expr_steps(model::spec_expr_model(*self), context, 0))
                matches Err(e) ==> res == Err::<Vec<u8>, ExpressionError>(e)),
            res matches Ok(b) ==> exists|v: crate::cbor::value::Value|
                #[trigger] model::spec_expr_record(v, model::spec_expr_model(*self))
                && b@ == crate::cbor::value::spec_encode(v),
            limits.spec_valid() && model::spec_erun(*limits, (0, 0, 0),
                model::spec_expr_steps(model::spec_expr_model(*self), context, 0)) is Ok
                ==> exists|v: crate::cbor::value::Value| #[trigger] model::spec_expr_record(v, model::spec_expr_model(*self))
                && (crate::cbor::encode::spec_fits(v, *limits) <==> res is Ok)
                && (res matches Ok(b) ==> b@ == crate::cbor::value::spec_encode(v)),
    {
        let v = self.to_value(context, limits)?;
        match crate::cbor::encode::encode(&v, limits) {
            Ok(b) => Ok(b),
            Err(e) => Err(ExpressionError::Codec(e)),
        }
    }

    /// Decodes exactly one canonical expression record in context `context`,
    /// rejecting trailing data and repairable structure.
    pub fn decode(bytes: &[u8], context: ExpressionContext, limits: &crate::cbor::limits::Limits)
        -> (res: Result<Expression, ExpressionError>)
        ensures
            !limits.spec_valid() ==> res matches Err(ExpressionError::Codec(_)),
            res matches Ok(x) ==> exists|w: crate::cbor::value::Value| #[trigger] crate::cbor::value::spec_encode(w) == bytes@
                && reader::spec_read_expr(w, context, false) == Ok::<model::ExprModel, ExpressionError>(model::spec_expr_model(x)),
            limits.spec_valid() && (exists|x: crate::cbor::value::Value| #[trigger] crate::cbor::value::spec_encode(x) == bytes@
                && crate::cbor::value::spec_wf(x) && crate::cbor::value::spec_height(x) <= limits.max_depth
                && bytes@.len() <= limits.max_document_bytes) ==> exists|w: crate::cbor::value::Value|
                #[trigger] crate::cbor::value::spec_encode(w) == bytes@ && crate::cbor::value::spec_wf(w)
                && (match reader::spec_read_expr(w, context, false) {
                    Ok(m) => res matches Ok(x) && model::spec_expr_model(x) == m,
                    Err(e) => res == Err::<Expression, ExpressionError>(e),
                }),
    {
        let v = match crate::cbor::decode::decode(bytes, limits) {
            Ok(v) => v,
            Err(e) => return Err(ExpressionError::Codec(e)),
        };
        proof { assert(crate::cbor::value::spec_encode(v) == bytes@ && crate::cbor::value::spec_wf(v)); }
        let x = reader::parse_expr(&v, context, false)?;
        assert(crate::cbor::value::spec_encode(v) == bytes@);
        Ok(x)
    }
}

} // verus!
