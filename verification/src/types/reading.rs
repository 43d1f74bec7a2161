//! What reading a type or port record yields: the model, or the first failure.

use vstd::prelude::*;
use vstd::string::*;

use super::{PrimitiveType, TypeContext, spec_primitive_name};
use super::model::{spec_model_record, spec_model_steps, spec_run, PortModel, TypeError, TypeModel};
use crate::cbor::limits::Limits;
use crate::cbor::value::{spec_encode, spec_lex_lt, spec_utf8, Value};

verus! {

/// The primitive spelled `t`, if any.
pub open spec fn spec_primitive_of(t: Seq<char>) -> Option<PrimitiveType> {
    if exists|p: PrimitiveType| spec_primitive_name(p) == t {
        Some(choose|p: PrimitiveType| spec_primitive_name(p) == t)
    } else {
        None
    }
}

/// The number of array elements of a known constructor, tag included.
pub open spec fn spec_arity(tag: Seq<char>) -> Option<int> {
    if tag == "list"@ || tag == "map"@ || tag == "record"@ || tag == "union"@ || tag == "enum"@
        || tag == "schema"@ || tag == "var"@ {
        Some(2)
    } else if tag == "function"@ {
        Some(3)
    } else {
        None
    }
}

/// The canonical bytes of a type's record.
pub open spec fn spec_model_bytes(m: TypeModel) -> Seq<u8> {
    spec_encode(choose|v: Value| spec_model_record(v, m))
}

/// Encoding one union member on its own: its record is built from depth
/// zero under the limits, then serialized.
pub open spec fn spec_member_encode(m: TypeModel, ctx: TypeContext, l: Limits) -> Result<Seq<u8>, TypeError> {
    match spec_run(l, ctx, (0, 0, 0), spec_model_steps(m, 0)) {
        Err(e) => Err(e),
        Ok(_) => Ok(spec_model_bytes(m)),
    }
}

/// Encoding union members in order; the first failure is reported.
pub open spec fn spec_members_encode(ms: Seq<TypeModel>, ctx: TypeContext, l: Limits) -> Result<Seq<Seq<u8>>, TypeError>
    decreases ms.len(),
{
    if ms.len() == 0 {
        Ok(Seq::empty())
    } else {
        match spec_member_encode(ms[0], ctx, l) {
            Err(e) => Err(e),
            Ok(b) => match spec_members_encode(ms.drop_first(), ctx, l) {
                Err(e) => Err(e),
                Ok(rest) => Ok(seq![b] + rest),
            },
        }
    }
}

/// Some chosen index holds the key.
pub open spec fn spec_covered(ix: Seq<int>, bs: Seq<Seq<u8>>, key: Seq<u8>) -> bool {
    exists|k: int| 0 <= k < ix.len() && bs[#[trigger] ix[k]] == key
}

/// Indices choosing, in strictly increasing byte order, the first member of
/// each distinct encoding.
pub open spec fn spec_first_of_each(ix: Seq<int>, bs: Seq<Seq<u8>>) -> bool {
    &&& forall|k: int| 0 <= k < ix.len() ==> 0 <= #[trigger] ix[k] < bs.len()
    &&& forall|a: int, b: int| 0 <= a < b < ix.len() ==> spec_lex_lt(bs[#[trigger] ix[a]], bs[#[trigger] ix[b]])
    &&& forall|j: int| 0 <= j < bs.len() ==> spec_covered(ix, bs, #[trigger] bs[j])
    &&& forall|k: int, j: int| #![trigger ix[k], bs[j]] 0 <= k < ix.len() && 0 <= j < ix[k] ==> bs[j] != bs[ix[k]]
}

/// Normalized union members: sorted by encoding, one per distinct encoding,
/// the first in member order.
pub open spec fn spec_union_normal(ms: Seq<TypeModel>, bs: Seq<Seq<u8>>) -> Seq<TypeModel> {
    let ix = choose|ix: Seq<int>| spec_first_of_each(ix, bs);
    Seq::new(ix.len(), |k: int| ms[ix[k]])
}

/// The first adjacent pair whose encodings do not strictly increase.
pub open spec fn spec_bytes_increase(bs: Seq<Seq<u8>>) -> bool {
    forall|i: int| 0 <= i < bs.len() - 1 ==> spec_lex_lt(#[trigger] bs[i], bs[i + 1])
}

/// Enum members strictly increasing in UTF-8 order, or the first failure.
pub open spec fn spec_enum_order(ms: Seq<Seq<char>>, i: int) -> Option<TypeError>
    decreases ms.len() - i,
{
    if i < 0 || i + 1 >= ms.len() {
        None
    } else if spec_utf8(ms[i]) == spec_utf8(ms[i + 1]) {
        Some(TypeError::DuplicateEnumMember)
    } else if !spec_lex_lt(spec_utf8(ms[i]), spec_utf8(ms[i + 1])) {
        Some(TypeError::NonCanonical("enum UTF-8 ordering"))
    } else {
        spec_enum_order(ms, i + 1)
    }
}

/// Members pairwise distinct as UTF-8.
pub open spec fn spec_texts_distinct(ms: Seq<Seq<char>>) -> bool {
    forall|i: int, j: int| 0 <= i < j < ms.len() ==> spec_utf8(#[trigger] ms[i]) != spec_utf8(#[trigger] ms[j])
}

/// Texts in strictly increasing UTF-8 order.
pub open spec fn spec_texts_sorted(ms: Seq<Seq<char>>) -> bool {
    forall|i: int, j: int| 0 <= i < j < ms.len() ==> spec_lex_lt(spec_utf8(#[trigger] ms[i]), spec_utf8(#[trigger] ms[j]))
}

/// The members sorted in UTF-8 order.
pub open spec fn spec_sort_texts(ms: Seq<Seq<char>>) -> Seq<Seq<char>> {
    choose|r: Seq<Seq<char>>| spec_texts_sorted(r) && (forall|x: Seq<char>| r.contains(x) <==> ms.contains(x))
}

/// Reading enum members: a nonempty array of texts, sorted when normalizing,
/// then checked for repeats and order.
pub open spec fn spec_parse_enum(v: Value, normalize: bool) -> Result<TypeModel, TypeError> {
    match v {
        Value::Array(a) => if a@.len() == 0 {
            Err(TypeError::EmptyEnum)
        } else if exists|i: int| 0 <= i < a@.len() && !(#[trigger] a@[i] is Text) {
            Err(TypeError::InvalidShape("enum member"))
        } else {
            let ms = Seq::new(a@.len(), |i: int| a@[i]->Text_0@);
            if normalize {
                if spec_texts_distinct(ms) {
                    Ok(TypeModel::Enum(spec_sort_texts(ms)))
                } else {
                    Err(TypeError::DuplicateEnumMember)
                }
            } else {
                match spec_enum_order(ms, 0) {
                    Some(e) => Err(e),
                    None => Ok(TypeModel::Enum(ms)),
                }
            }
        },
        _ => Err(TypeError::InvalidShape("enum members")),
    }
}

/// The position of the first entry with key `k`, if any.
pub open spec fn spec_key_index(e: Seq<(String, Value)>, k: Seq<char>, i: int) -> int
    decreases e.len() - i,
{
    if i < 0 || i >= e.len() {
        -1
    } else if e[i].0@ == k {
        i
    } else {
        spec_key_index(e, k, i + 1)
    }
}

/// The found position holds the key, and none before it does.
pub proof fn lemma_key_index(e: Seq<(String, Value)>, k: Seq<char>, i: int)
    requires
        0 <= i,
    ensures
        spec_key_index(e, k, i) == -1 || (i <= spec_key_index(e, k, i) < e.len() && e[spec_key_index(e, k, i)].0@ == k),
        spec_key_index(e, k, i) == -1 ==> forall|j: int| i <= j < e.len() ==> (#[trigger] e[j]).0@ != k,
        spec_key_index(e, k, i) != -1 ==> forall|j: int| i <= j < spec_key_index(e, k, i) ==> (#[trigger] e[j]).0@ != k,
    decreases e.len() - i,
{
    if i < e.len() && e[i].0@ != k {
        lemma_key_index(e, k, i + 1);
    }
}

/// Reading a type record: a primitive name, or a tagged constructor array.
pub open spec fn spec_parse_type(v: Value, ctx: TypeContext, l: Limits, normalize: bool) -> Result<TypeModel, TypeError>
    decreases v, 1nat,
{
    match v {
        Value::Text(t) => match spec_primitive_of(t@) {
            Some(p) => Ok(TypeModel::Primitive(p)),
            None => Err(TypeError::UnknownPrimitive),
        },
        Value::Array(a) => if a@.len() == 0 {
            Err(TypeError::InvalidShape("type constructor"))
        } else {
            match a@[0] {
                Value::Text(tag) => match spec_arity(tag@) {
                    None => Err(TypeError::UnknownConstructor),
                    Some(n) => if a@.len() != n {
                        Err(TypeError::InvalidShape("constructor arity"))
                    } else if tag@ == "list"@ || tag@ == "map"@ {
                        match spec_parse_type(a@[1], ctx, l, normalize) {
                            Err(e) => Err(e),
                            Ok(c) => if tag@ == "list"@ {
                                Ok(TypeModel::List(Box::new(c)))
                            } else {
                                Ok(TypeModel::StringMap(Box::new(c)))
                            },
                        }
                    } else if tag@ == "record"@ {
                        match a@[1] {
                            Value::Object(m) => match spec_parse_fields(m.entries@, ctx, l, normalize) {
                                Err(e) => Err(e),
                                Ok(fs) => Ok(TypeModel::Record(fs)),
                            },
                            _ => Err(TypeError::InvalidShape("record fields")),
                        }
                    } else if tag@ == "enum"@ {
                        spec_parse_enum(a@[1], normalize)
                    } else if tag@ == "union"@ {
                        match a@[1] {
                            Value::Array(items) => spec_parse_union(items@, ctx, l, normalize),
                            _ => Err(TypeError::InvalidShape("union members")),
                        }
                    } else if tag@ == "schema"@ {
                        match a@[1] {
                            Value::Text(t) => match crate::digest::spec_parse_digest(spec_utf8(t@)) {
                                Ok(b) => Ok(TypeModel::Schema(b)),
                                Err(e) => Err(TypeError::Digest(e)),
                            },
                            _ => Err(TypeError::InvalidShape("schema digest")),
                        }
                    } else if tag@ == "var"@ {
                        if ctx == TypeContext::Value {
                            Err(TypeError::SignatureOnly("var"))
                        } else {
                            match a@[1] {
                                Value::Text(t) => match crate::identifier::spec_identifier_error(spec_utf8(t@)) {
                                    None => Ok(TypeModel::Var(t@)),
                                    Some(e) => Err(TypeError::Identifier(e)),
                                },
                                _ => Err(TypeError::InvalidShape("type variable")),
                            }
                        }
                    } else {
                        if ctx == TypeContext::Value {
                            Err(TypeError::SignatureOnly("function"))
                        } else {
                            match a@[1] {
                                Value::Array(ps) => match spec_parse_ports(ps@, ctx, l, normalize) {
                                    Err(e) => Err(e),
                                    Ok(pms) => match spec_parse_port(a@[2], ctx, l, normalize) {
                                        Err(e) => Err(e),
                                        Ok(r) => Ok(TypeModel::Function(pms, Box::new(r))),
                                    },
                                },
                                _ => Err(TypeError::InvalidShape("function parameters")),
                            }
                        }
                    },
                },
                _ => Err(TypeError::InvalidShape("type constructor")),
            }
        },
        _ => Err(TypeError::InvalidShape("type")),
    }
}

/// Every key is `type` or `required`.
pub open spec fn spec_port_keys(e: Seq<(String, Value)>) -> bool {
    forall|j: int| 0 <= j < e.len() ==> (#[trigger] e[j]).0@ == "type"@ || e[j].0@ == "required"@
}

/// Reading a port record: exactly `type` and `required`, the latter Boolean.
pub open spec fn spec_parse_port(v: Value, ctx: TypeContext, l: Limits, normalize: bool) -> Result<PortModel, TypeError>
    decreases v, 0nat,
{
    match v {
        Value::Object(m) => {
            let e = m.entries@;
            if !spec_port_keys(e) {
                Err(TypeError::UnknownPortField)
            } else {
                let r = spec_key_index(e, "required"@, 0);
                let t = spec_key_index(e, "type"@, 0);
                if r == -1 {
                    Err(TypeError::MissingPortField("required"))
                } else if t == -1 {
                    Err(TypeError::MissingPortField("type"))
                } else {
                    proof {
                        lemma_key_index(e, "type"@, 0);
                    }
                    match e[r].1 {
                        Value::Bool(b) => match spec_parse_type(e[t].1, ctx, l, normalize) {
                            Err(x) => Err(x),
                            Ok(ty) => Ok(PortModel { ty, required: b }),
                        },
                        _ => Err(TypeError::InvalidShape("required boolean")),
                    }
                }
            }
        },
        _ => Err(TypeError::InvalidShape("port record")),
    }
}

/// Reading record fields in map order: each name with its port.
pub open spec fn spec_parse_fields(e: Seq<(String, Value)>, ctx: TypeContext, l: Limits, normalize: bool)
    -> Result<Seq<(Seq<char>, PortModel)>, TypeError>
    decreases e, 0nat,
{
    if e.len() == 0 {
        Ok(Seq::empty())
    } else {
        match spec_parse_port(e[0].1, ctx, l, normalize) {
            Err(x) => Err(x),
            Ok(p) => match spec_parse_fields(e.drop_first(), ctx, l, normalize) {
                Err(x) => Err(x),
                Ok(rest) => Ok(seq![(e[0].0@, p)] + rest),
            },
        }
    }
}

/// Reading ports in order.
pub open spec fn spec_parse_ports(vs: Seq<Value>, ctx: TypeContext, l: Limits, normalize: bool)
    -> Result<Seq<PortModel>, TypeError>
    decreases vs, 0nat,
{
    if vs.len() == 0 {
        Ok(Seq::empty())
    } else {
        match spec_parse_port(vs[0], ctx, l, normalize) {
            Err(x) => Err(x),
            Ok(p) => match spec_parse_ports(vs.drop_first(), ctx, l, normalize) {
                Err(x) => Err(x),
                Ok(rest) => Ok(seq![p] + rest),
            },
        }
    }
}

/// Reading union items in order; a nested union is flattened when
/// normalizing and refused otherwise.
pub open spec fn spec_parse_items(vs: Seq<Value>, ctx: TypeContext, l: Limits, normalize: bool)
    -> Result<Seq<TypeModel>, TypeError>
    decreases vs, 0nat,
{
    if vs.len() == 0 {
        Ok(Seq::empty())
    } else {
        match spec_parse_type(vs[0], ctx, l, normalize) {
            Err(x) => Err(x),
            Ok(m) => if m is Union && !normalize {
                Err(TypeError::NonCanonical("nested union"))
            } else {
                match spec_parse_items(vs.drop_first(), ctx, l, normalize) {
                    Err(x) => Err(x),
                    Ok(rest) => match m {
                        TypeModel::Union(children) => Ok(children + rest),
                        _ => Ok(seq![m] + rest),
                    },
                }
            },
        }
    }
}

/// Reading union members: items in order, each member encoded, then sorted
/// and deduplicated by encoding when normalizing, or checked to be strictly
/// increasing otherwise; at least two must remain.
pub open spec fn spec_parse_union(vs: Seq<Value>, ctx: TypeContext, l: Limits, normalize: bool) -> Result<TypeModel, TypeError>
    decreases vs, 1nat,
{
    match spec_parse_items(vs, ctx, l, normalize) {
        Err(x) => Err(x),
        Ok(ms) => match spec_members_encode(ms, ctx, l) {
            Err(x) => Err(x),
            Ok(bs) => if normalize {
                let r = spec_union_normal(ms, bs);
                if r.len() < 2 { Err(TypeError::UnionCardinality) } else { Ok(TypeModel::Union(r)) }
            } else if !spec_bytes_increase(bs) {
                Err(TypeError::NonCanonical("union encoded-byte ordering/uniqueness"))
            } else if ms.len() < 2 {
                Err(TypeError::UnionCardinality)
            } else {
                Ok(TypeModel::Union(ms))
            },
        },
    }
}

} // verus!
