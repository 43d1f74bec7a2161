//! Canonical type descriptions and port presence metadata.

pub mod builder;
pub mod model;
pub mod reader;
pub mod reading;

use vstd::prelude::*;
use vstd::string::*;

use crate::digest::Digest;
use crate::identifier::Identifier;
use crate::text::same_text;
use crate::types::model::TypeError;

verus! {

/// The context in which a type description is used.
#[derive(Clone, Copy, Debug, PartialEq, Eq, Structural)]
pub enum TypeContext {
    /// Ordinary graph ports, record fields, and artifact types; no var/function.
    Value,
    /// Library signatures, where var/function constructors are permitted.
    Signature,
}

/// The closed set of canonical HTLK primitive type names.
#[derive(Clone, Copy, Debug, PartialEq, Eq, Hash, Structural)]
pub enum PrimitiveType {
    /// Unicode scalar text.
    String,
    /// Signed 64-bit integer.
    Integer,
    /// Finite binary64 float.
    Float,
    /// Boolean.
    Boolean,
    /// Explicit null.
    Null,
    /// Opaque bytes.
    Bytes,
    /// JSON-compatible data under the compiler numeric profile.
    Json,
    /// A pattern/flags record validated by the pinned regex engine.
    Regex,
    /// Ordered normalized MCP resource contents.
    ResourceSnapshot,
    /// A validated MCP prompt result.
    McpPromptResult,
    /// The runtime's structured error value.
    Error,
}

/// The exact canonical spelling of a primitive type.
pub open spec fn spec_primitive_name(p: PrimitiveType) -> Seq<char> {
    match p {
        PrimitiveType::String => "string"@,
        PrimitiveType::Integer => "integer"@,
        PrimitiveType::Float => "float"@,
        PrimitiveType::Boolean => "boolean"@,
        PrimitiveType::Null => "null"@,
        PrimitiveType::Bytes => "bytes"@,
        PrimitiveType::Json => "json"@,
        PrimitiveType::Regex => "regex"@,
        PrimitiveType::ResourceSnapshot => "ResourceSnapshot"@,
        PrimitiveType::McpPromptResult => "McpPromptResult"@,
        PrimitiveType::Error => "Error"@,
    }
}

/// Distinct primitives have distinct spellings.
pub proof fn lemma_primitive_names_distinct(p: PrimitiveType, q: PrimitiveType)
    ensures
        spec_primitive_name(p) == spec_primitive_name(q) ==> p == q,
{
    reveal_strlit("string");
    reveal_strlit("integer");
    reveal_strlit("float");
    reveal_strlit("boolean");
    reveal_strlit("null");
    reveal_strlit("bytes");
    reveal_strlit("json");
    reveal_strlit("regex");
    reveal_strlit("ResourceSnapshot");
    reveal_strlit("McpPromptResult");
    reveal_strlit("Error");
    if spec_primitive_name(p) == spec_primitive_name(q) {
        let a = spec_primitive_name(p);
        let b = spec_primitive_name(q);
        assert(a.len() == b.len());
        assert(a[0] == b[0]);
        if a.len() > 1 {
            assert(a[1] == b[1]);
        }
    }
}

/// Every primitive's spelling reads back as that primitive.
pub proof fn lemma_primitive_roundtrip(p: PrimitiveType)
    ensures
        forall|q: PrimitiveType| spec_primitive_name(q) == spec_primitive_name(p) ==> q == p,
{
    assert forall|q: PrimitiveType| spec_primitive_name(q) == spec_primitive_name(p) implies q == p by {
        lemma_primitive_names_distinct(q, p);
    }
}

impl PrimitiveType {
    /// Returns the exact canonical spelling, without source aliases.
    pub fn as_str(self) -> (res: &'static str)
        ensures
            res@ == spec_primitive_name(self),
    {
        match self {
            PrimitiveType::String => "string",
            PrimitiveType::Integer => "integer",
            PrimitiveType::Float => "float",
            PrimitiveType::Boolean => "boolean",
            PrimitiveType::Null => "null",
            PrimitiveType::Bytes => "bytes",
            PrimitiveType::Json => "json",
            PrimitiveType::Regex => "regex",
            PrimitiveType::ResourceSnapshot => "ResourceSnapshot",
            PrimitiveType::McpPromptResult => "McpPromptResult",
            PrimitiveType::Error => "Error",
        }
    }

    /// Reads an exact canonical spelling; aliases and other case are refused.
    pub fn parse(text: &str) -> (res: Result<PrimitiveType, TypeError>)
        ensures
            res matches Ok(p) ==> spec_primitive_name(p) == text@,
            res is Err ==> res == Err::<PrimitiveType, TypeError>(TypeError::UnknownPrimitive)
                && forall|p: PrimitiveType| spec_primitive_name(p) != text@,
            forall|p: PrimitiveType| spec_primitive_name(p) == text@ ==> res == Ok::<PrimitiveType, TypeError>(p),
    {
        let all = [
            PrimitiveType::String,
            PrimitiveType::Integer,
            PrimitiveType::Float,
            PrimitiveType::Boolean,
            PrimitiveType::Null,
            PrimitiveType::Bytes,
            PrimitiveType::Json,
            PrimitiveType::Regex,
            PrimitiveType::ResourceSnapshot,
            PrimitiveType::McpPromptResult,
            PrimitiveType::Error,
        ];
        let mut i: usize = 0;
        while i < 11
            invariant
                i <= 11,
                all@ == seq![
                    PrimitiveType::String,
                    PrimitiveType::Integer,
                    PrimitiveType::Float,
                    PrimitiveType::Boolean,
                    PrimitiveType::Null,
                    PrimitiveType::Bytes,
                    PrimitiveType::Json,
                    PrimitiveType::Regex,
                    PrimitiveType::ResourceSnapshot,
                    PrimitiveType::McpPromptResult,
                    PrimitiveType::Error,
                ],
                forall|k: int| 0 <= k < i ==> spec_primitive_name(#[trigger] all@[k]) != text@,
            decreases 11 - i,
        {
            let p = all[i];
            if same_text(p.as_str(), text) {
                proof {
                    assert forall|q: PrimitiveType| spec_primitive_name(q) == text@ implies q == p by {
                        lemma_primitive_names_distinct(q, p);
                    }
                }
                return Ok(p);
            }
            i = i + 1;
        }
        proof {
            assert forall|p: PrimitiveType| spec_primitive_name(p) != text@ by {
                let k: int = match p {
                    PrimitiveType::String => 0,
                    PrimitiveType::Integer => 1,
                    PrimitiveType::Float => 2,
                    PrimitiveType::Boolean => 3,
                    PrimitiveType::Null => 4,
                    PrimitiveType::Bytes => 5,
                    PrimitiveType::Json => 6,
                    PrimitiveType::Regex => 7,
                    PrimitiveType::ResourceSnapshot => 8,
                    PrimitiveType::McpPromptResult => 9,
                    PrimitiveType::Error => 10,
                };
                assert(all@[k] == p);
            }
        }
        Err(TypeError::UnknownPrimitive)
    }
}

/// Authored type shape, or a read-only view of a normalized [`ValueType`].
///
/// Record vectors preserve duplicate keys until checked; validated records are
/// ordered by canonical CBOR key bytes. Function parameter order is semantic.
#[derive(Debug, PartialEq)]
pub enum ValueTypeKind {
    /// One of the closed primitive type names.
    Primitive(PrimitiveType),
    /// Homogeneous list.
    List(Box<ValueType>),
    /// Arbitrary string-keyed homogeneous map.
    StringMap(Box<ValueType>),
    /// Declared record fields, with arbitrary exact string names and presence.
    Record(Vec<(String, Port)>),
    /// Union members; construction flattens, sorts, and deduplicates them.
    Union(Vec<ValueType>),
    /// Nonempty unique string membership; construction sorts by UTF-8 bytes.
    Enum(Vec<String>),
    /// Schema digest; resolution and suitability are checked by the verifier.
    Schema(Digest),
    /// Signature-only variable; declaration/binding checks belong to the verifier.
    Var(Identifier),
    /// Signature-only function type.
    Function {
        /// Positional parameter declarations, in semantic order.
        parameters: Vec<Port>,
        /// Result type and whether absence can be returned.
        result: Box<Port>,
    },
}

/// An immutable type description, not an application data value.
#[derive(Debug, PartialEq)]
pub struct ValueType {
    /// The type's shape.
    pub kind: ValueTypeKind,
}

impl ValueType {
    /// Constructs a primitive type, which is valid in either context.
    pub fn primitive(primitive: PrimitiveType) -> (res: ValueType)
        ensures
            res.kind == ValueTypeKind::Primitive(primitive),
    {
        ValueType { kind: ValueTypeKind::Primitive(primitive) }
    }

    /// Borrows the typed shape without allowing mutation.
    pub fn kind(&self) -> (res: &ValueTypeKind)
        ensures
            *res == self.kind,
    {
        &self.kind
    }
}

/// A declared type plus an independent presence requirement.
///
/// Required does not mean non-null: a nullable type may require a present
/// value, and an optional non-null type may permit absence.
#[derive(Debug, PartialEq)]
pub struct Port {
    /// The declared type.
    pub value_type: ValueType,
    /// Whether a value must be present.
    pub required: bool,
}

impl Port {
    /// Combines a type and a presence flag.
    pub fn new(value_type: ValueType, required: bool) -> (res: Port)
        ensures
            res.value_type == value_type,
            res.required == required,
    {
        Port { value_type, required }
    }

    /// Borrows the declared type.
    pub fn value_type(&self) -> (res: &ValueType)
        ensures
            *res == self.value_type,
    {
        &self.value_type
    }

    /// Returns whether a value must be present.
    pub fn required(&self) -> (res: bool)
        ensures
            res == self.required,
    {
        self.required
    }
}

} // verus!

verus! {

use crate::cbor::limits::Limits;
use crate::cbor::value::Value;
use crate::types::model::{spec_model_record, spec_model_steps, spec_port_model, spec_port_record, spec_port_steps,
    spec_run, spec_type_model, TypeModel};
use crate::types::reading::{spec_model_bytes, spec_parse_port, spec_parse_type};

impl ValueType {
    /// The model of this type.
    pub open spec fn spec_model(&self) -> TypeModel {
        spec_type_model(self.kind)
    }

    /// Normalizes an authored shape under the context and codec limits: its
    /// record is built, read back with normalization (unions flattened,
    /// sorted and deduplicated by encoding, enums sorted), and the result is
    /// bounded again. Unions must keep two distinct members and enums must
    /// be nonempty and unique.
    pub fn new(kind: ValueTypeKind, context: TypeContext, limits: &Limits) -> (res: Result<ValueType, TypeError>)
        ensures
            !limits.spec_valid() ==> (res matches Err(TypeError::Codec(e)) && e.kind == crate::cbor::error::ErrorKind::InvalidLimits),
            limits.spec_valid() ==> match spec_run(*limits, context, (0, 0, 0), spec_model_steps(spec_type_model(kind), 0)) {
                Err(e) => res == Err::<ValueType, TypeError>(e),
                Ok(_) => exists|v: Value| spec_model_record(v, spec_type_model(kind)) && match spec_parse_type(v, context, *limits, true) {
                    Err(e) => res == Err::<ValueType, TypeError>(e),
                    Ok(m) => match spec_run(*limits, context, (0, 0, 0), spec_model_steps(m, 0)) {
                        Err(e) => res == Err::<ValueType, TypeError>(e),
                        Ok(_) => res matches Ok(t) && t.spec_model() == m,
                    },
                },
            },
    {
        let authored = ValueType { kind };
        let value = authored.to_value(context, limits)?;
        let result = reader::parse_type(&value, context, limits, true)?;
        result.to_value(context, limits)?;
        Ok(result)
    }

    /// Produces the canonical record under the context, bounding every value
    /// before it is produced.
    pub fn to_value(&self, context: TypeContext, limits: &Limits) -> (res: Result<Value, TypeError>)
        ensures
            !limits.spec_valid() ==> (res matches Err(TypeError::Codec(e)) && e.kind == crate::cbor::error::ErrorKind::InvalidLimits),
            limits.spec_valid() ==> match spec_run(*limits, context, (0, 0, 0), spec_model_steps(self.spec_model(), 0)) {
                Ok(_) => res matches Ok(v) && spec_model_record(v, self.spec_model()),
                Err(e) => res == Err::<Value, TypeError>(e),
            },
    {
        let mut acc = match crate::record_accounting::RecordAccounting::new(limits) {
            Ok(a) => a,
            Err(e) => return Err(TypeError::Codec(e)),
        };
        builder::build_type(&mut acc, context, &self.kind, 0)
    }

    /// Reads an already decoded canonical type without normalizing it; the
    /// value is bounded by the codec limits first.
    pub fn from_value(value: &Value, context: TypeContext, limits: &Limits) -> (res: Result<ValueType, TypeError>)
        ensures
            !(limits.spec_valid() && crate::cbor::encode::spec_fits(*value, *limits)) ==> res matches Err(TypeError::Codec(_)),
            limits.spec_valid() && crate::cbor::encode::spec_fits(*value, *limits) ==> match spec_parse_type(*value, context, *limits, false) {
                Ok(m) => res matches Ok(t) && t.spec_model() == m,
                Err(e) => res == Err::<ValueType, TypeError>(e),
            },
    {
        if let Err(e) = crate::cbor::encode::encode(value, limits) {
            return Err(TypeError::Codec(e));
        }
        reader::parse_type(value, context, limits, false)
    }

    /// Encodes this type as deterministic CBOR under the context: exactly the
    /// canonical bytes of its record.
    pub fn encode(&self, context: TypeContext, limits: &Limits) -> (res: Result<Vec<u8>, TypeError>)
        ensures
            !limits.spec_valid() ==> res matches Err(TypeError::Codec(_)),
            limits.spec_valid() ==> match spec_run(*limits, context, (0, 0, 0), spec_model_steps(self.spec_model(), 0)) {
                Ok(_) => res matches Ok(b) && b@ == spec_model_bytes(self.spec_model()),
                Err(e) => res == Err::<Vec<u8>, TypeError>(e),
            },
    {
        if limits.validate().is_err() {
            return Err(TypeError::Codec(crate::cbor::error::Error::new(crate::cbor::error::ErrorKind::InvalidLimits)));
        }
        reader::member_bytes(self, context, limits)
    }

    /// Decodes exactly one canonical type record, rejecting trailing bytes.
    pub fn decode(bytes: &[u8], context: TypeContext, limits: &Limits) -> (res: Result<ValueType, TypeError>)
        ensures
            !limits.spec_valid() ==> res matches Err(TypeError::Codec(_)),
            res matches Ok(t) ==> exists|w: Value| #[trigger] crate::cbor::value::spec_encode(w) == bytes@
                && spec_parse_type(w, context, *limits, false) == Ok::<TypeModel, TypeError>(t.spec_model()),
            res matches Err(e) ==> (e is Codec || exists|w: Value| #[trigger] crate::cbor::value::spec_encode(w) == bytes@
                && spec_parse_type(w, context, *limits, false) == Err::<TypeModel, TypeError>(e)),
            limits.spec_valid() && (exists|x: crate::cbor::value::Value| #[trigger] crate::cbor::value::spec_encode(x) == bytes@
                && crate::cbor::value::spec_wf(x) && crate::cbor::value::spec_height(x) <= limits.max_depth
                && bytes@.len() <= limits.max_document_bytes) ==> exists|w: crate::cbor::value::Value|
                #[trigger] crate::cbor::value::spec_encode(w) == bytes@ && crate::cbor::value::spec_wf(w) && (match spec_parse_type(w, context, *limits, false) {
                Ok(m) => res matches Ok(t) && t.spec_model() == m,
                Err(e) => res == Err::<ValueType, TypeError>(e),
            }),
    {
        let v = match crate::cbor::decode::decode(bytes, limits) {
            Ok(v) => v,
            Err(e) => return Err(TypeError::Codec(e)),
        };
        proof { assert(crate::cbor::value::spec_encode(v) == bytes@ && crate::cbor::value::spec_wf(v)); }
        assert(crate::cbor::value::spec_encode(v) == bytes@);
        reader::parse_type(&v, context, limits, false)
    }
}

impl Port {
    /// The model of this port.
    pub open spec fn spec_model(&self) -> crate::types::model::PortModel {
        spec_port_model(*self)
    }

    /// Produces exactly `{ type, required }`, bounding every value first.
    pub fn to_value(&self, context: TypeContext, limits: &Limits) -> (res: Result<Value, TypeError>)
        ensures
            !limits.spec_valid() ==> (res matches Err(TypeError::Codec(e)) && e.kind == crate::cbor::error::ErrorKind::InvalidLimits),
            limits.spec_valid() ==> match spec_run(*limits, context, (0, 0, 0), spec_port_steps(self.spec_model(), 0)) {
                Ok(_) => res matches Ok(v) && spec_port_record(v, self.spec_model()),
                Err(e) => res == Err::<Value, TypeError>(e),
            },
    {
        let mut acc = match crate::record_accounting::RecordAccounting::new(limits) {
            Ok(a) => a,
            Err(e) => return Err(TypeError::Codec(e)),
        };
        builder::build_port(&mut acc, context, self, 0)
    }

    /// Parses an exact canonical port record without inferring missing fields;
    /// the value is bounded by the codec limits first.
    pub fn from_value(value: &Value, context: TypeContext, limits: &Limits) -> (res: Result<Port, TypeError>)
        ensures
            !(limits.spec_valid() && crate::cbor::encode::spec_fits(*value, *limits)) ==> res matches Err(TypeError::Codec(_)),
            limits.spec_valid() && crate::cbor::encode::spec_fits(*value, *limits) ==> match spec_parse_port(*value, context, *limits, false) {
                Ok(p) => res matches Ok(r) && r.spec_model() == p,
                Err(e) => res == Err::<Port, TypeError>(e),
            },
    {
        if let Err(e) = crate::cbor::encode::encode(value, limits) {
            return Err(TypeError::Codec(e));
        }
        reader::parse_port(value, context, limits, false)
    }

    /// Encodes the port as one deterministic CBOR record.
    pub fn encode(&self, context: TypeContext, limits: &Limits) -> (res: Result<Vec<u8>, TypeError>)
        ensures
            !limits.spec_valid() ==> res matches Err(TypeError::Codec(_)),
            limits.spec_valid() ==> match spec_run(*limits, context, (0, 0, 0), spec_port_steps(self.spec_model(), 0)) {
                Ok(_) => res matches Ok(b) && exists|v: Value| spec_port_record(v, self.spec_model())
                    && b@ == crate::cbor::value::spec_encode(v),
                Err(e) => res == Err::<Vec<u8>, TypeError>(e),
            },
    {
        let mut acc = match crate::record_accounting::RecordAccounting::new(limits) {
            Ok(a) => a,
            Err(e) => return Err(TypeError::Codec(e)),
        };
        let v = builder::build_port(&mut acc, context, self, 0)?;
        proof {
            crate::types::model::lemma_run_bytes_bound(*limits, context, (0, 0, 0), spec_port_steps(self.spec_model(), 0));
        }
        match crate::cbor::encode::encode(&v, limits) {
            Ok(b) => Ok(b),
            Err(e) => Err(TypeError::Codec(e)),
        }
    }

    /// Decodes exactly one canonical port record.
    pub fn decode(bytes: &[u8], context: TypeContext, limits: &Limits) -> (res: Result<Port, TypeError>)
        ensures
            !limits.spec_valid() ==> res matches Err(TypeError::Codec(_)),
            res matches Ok(p) ==> exists|w: Value| #[trigger] crate::cbor::value::spec_encode(w) == bytes@
                && spec_parse_port(w, context, *limits, false) == Ok::<crate::types::model::PortModel, TypeError>(p.spec_model()),
            res matches Err(e) ==> (e is Codec || exists|w: Value| #[trigger] crate::cbor::value::spec_encode(w) == bytes@
                && spec_parse_port(w, context, *limits, false) == Err::<crate::types::model::PortModel, TypeError>(e)),
            limits.spec_valid() && (exists|x: crate::cbor::value::Value| #[trigger] crate::cbor::value::spec_encode(x) == bytes@
                && crate::cbor::value::spec_wf(x) && crate::cbor::value::spec_height(x) <= limits.max_depth
                && bytes@.len() <= limits.max_document_bytes) ==> exists|w: crate::cbor::value::Value|
                #[trigger] crate::cbor::value::spec_encode(w) == bytes@ && crate::cbor::value::spec_wf(w) && (match spec_parse_port(w, context, *limits, false) {
                Ok(p) => res matches Ok(r) && r.spec_model() == p,
                Err(e) => res == Err::<Port, TypeError>(e),
            }),
    {
        let v = match crate::cbor::decode::decode(bytes, limits) {
            Ok(v) => v,
            Err(e) => return Err(TypeError::Codec(e)),
        };
        proof { assert(crate::cbor::value::spec_encode(v) == bytes@ && crate::cbor::value::spec_wf(v)); }
        assert(crate::cbor::value::spec_encode(v) == bytes@);
        reader::parse_port(&v, context, limits, false)
    }
}

} // verus!
