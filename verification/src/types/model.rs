//! The mathematical model of type descriptions and of their canonical records.

use vstd::prelude::*;
use vstd::string::*;

use super::{Port, PrimitiveType, TypeContext, ValueType, ValueTypeKind, spec_primitive_name};
use crate::cbor::error::{spec_plain_error, ErrorKind, LimitKind};
use crate::cbor::limits::Limits;
use crate::cbor::value::{spec_encode, spec_height, spec_keys_sorted, spec_utf8, Value};
use crate::record_accounting::{spec_apply, Charge, Counters};

verus! {

/// A canonical type/port construction or decoding failure.
///
/// Descriptions and field names in errors are fixed schema terms, not
/// submitted values.
#[derive(Debug)]
#[non_exhaustive]
pub enum TypeError {
    /// Underlying canonical CBOR failure, including input byte offsets.
    Codec(crate::cbor::error::Error),
    /// A record/array/scalar has the wrong shape at the named schema site.
    InvalidShape(&'static str),
    /// Text is not a supported canonical primitive (aliases are not accepted).
    UnknownPrimitive,
    /// A tagged type array uses an unknown constructor.
    UnknownConstructor,
    /// A port contains an undeclared metadata field.
    UnknownPortField,
    /// A required port metadata field is missing.
    MissingPortField(&'static str),
    /// A union has fewer than two distinct normalized members.
    UnionCardinality,
    /// An enum contains no members.
    EmptyEnum,
    /// An enum repeats the same exact string.
    DuplicateEnumMember,
    /// The canonical record violates the stated ordering/normalization rule.
    NonCanonical(&'static str),
    /// A signature-only constructor appeared in ordinary value context.
    SignatureOnly(&'static str),
    /// A signature variable's identifier is malformed.
    Identifier(crate::identifier::ParseIdentifierError),
    /// A schema digest is malformed.
    Digest(crate::digest::ParseDigestError),
    /// Building the canonical representation would exceed a codec limit.
    LimitExceeded {
        /// Resource whose ceiling was exceeded.
        limit: LimitKind,
        /// Configured ceiling.
        maximum: usize,
    },
    /// Reserving conversion/normalization storage failed.
    AllocationFailed,
}

/// A type description as mathematics: names and texts by their characters.
pub enum TypeModel {
    /// A primitive type.
    Primitive(PrimitiveType),
    /// A homogeneous list.
    List(Box<TypeModel>),
    /// A string-keyed homogeneous map.
    StringMap(Box<TypeModel>),
    /// Record fields, in stored order.
    Record(Seq<(Seq<char>, PortModel)>),
    /// Union members, in stored order.
    Union(Seq<TypeModel>),
    /// Enum members, in stored order.
    Enum(Seq<Seq<char>>),
    /// A schema digest.
    Schema(Seq<u8>),
    /// A signature variable.
    Var(Seq<char>),
    /// A function type: parameters and result.
    Function(Seq<PortModel>, Box<PortModel>),
}

/// A port as mathematics: its type and presence flag.
pub struct PortModel {
    /// The declared type.
    pub ty: TypeModel,
    /// Whether a value must be present.
    pub required: bool,
}

/// The model of a type shape.
pub open spec fn spec_type_model(k: ValueTypeKind) -> TypeModel
    decreases k,
{
    match k {
        ValueTypeKind::Primitive(p) => TypeModel::Primitive(p),
        ValueTypeKind::List(c) => TypeModel::List(Box::new(spec_type_model(c.kind))),
        ValueTypeKind::StringMap(c) => TypeModel::StringMap(Box::new(spec_type_model(c.kind))),
        ValueTypeKind::Record(fields) => TypeModel::Record(spec_fields_model(fields@)),
        ValueTypeKind::Union(members) => TypeModel::Union(spec_types_model(members@)),
        ValueTypeKind::Enum(members) => TypeModel::Enum(members@.map_values(|s: String| s@)),
        ValueTypeKind::Schema(d) => TypeModel::Schema(d@),
        ValueTypeKind::Var(name) => TypeModel::Var(name@),
        ValueTypeKind::Function { parameters, result } =>
            TypeModel::Function(spec_ports_model(parameters@), Box::new(spec_port_model(*result))),
    }
}

/// The model of a port.
pub open spec fn spec_port_model(p: Port) -> PortModel
    decreases p,
{
    PortModel { ty: spec_type_model(p.value_type.kind), required: p.required }
}

/// The models of record fields, in order.
pub open spec fn spec_fields_model(s: Seq<(String, Port)>) -> Seq<(Seq<char>, PortModel)>
    decreases s,
{
    if s.len() == 0 {
        Seq::empty()
    } else {
        spec_fields_model(s.drop_last()).push((s.last().0@, spec_port_model(s.last().1)))
    }
}

/// The models of types, in order.
pub open spec fn spec_types_model(s: Seq<ValueType>) -> Seq<TypeModel>
    decreases s,
{
    if s.len() == 0 {
        Seq::empty()
    } else {
        spec_types_model(s.drop_last()).push(spec_type_model(s.last().kind))
    }
}

/// The models of ports, in order.
pub open spec fn spec_ports_model(s: Seq<Port>) -> Seq<PortModel>
    decreases s,
{
    if s.len() == 0 {
        Seq::empty()
    } else {
        spec_ports_model(s.drop_last()).push(spec_port_model(s.last()))
    }
}

/// The field models line up with the fields.
pub proof fn lemma_fields_model(s: Seq<(String, Port)>)
    ensures
        spec_fields_model(s).len() == s.len(),
        forall|i: int| 0 <= i < s.len() ==> #[trigger] spec_fields_model(s)[i] == (s[i].0@, spec_port_model(s[i].1)),
    decreases s.len(),
{
    if s.len() > 0 {
        lemma_fields_model(s.drop_last());
    }
}

/// The type models line up with the types.
pub proof fn lemma_types_model(s: Seq<ValueType>)
    ensures
        spec_types_model(s).len() == s.len(),
        forall|i: int| 0 <= i < s.len() ==> #[trigger] spec_types_model(s)[i] == spec_type_model(s[i].kind),
    decreases s.len(),
{
    if s.len() > 0 {
        lemma_types_model(s.drop_last());
    }
}

/// The port models line up with the ports.
pub proof fn lemma_ports_model(s: Seq<Port>)
    ensures
        spec_ports_model(s).len() == s.len(),
        forall|i: int| 0 <= i < s.len() ==> #[trigger] spec_ports_model(s)[i] == spec_port_model(s[i]),
    decreases s.len(),
{
    if s.len() > 0 {
        lemma_ports_model(s.drop_last());
    }
}

/// One step of building a type record: a value charged against the limits,
/// a constructor that needs signature context, or the key check of a record map.
pub enum Step {
    /// A value charged against the codec limits.
    Charge(Charge),
    /// A constructor allowed only in signature context.
    Signature(&'static str),
    /// A record map whose field names must be distinct.
    Distinct(Seq<Seq<char>>),
}

/// The error for an exhausted conversion ceiling.
pub open spec fn spec_limit_error(limit: LimitKind, maximum: usize) -> TypeError {
    TypeError::LimitExceeded { limit, maximum }
}

/// Names are pairwise distinct as UTF-8.
pub open spec fn spec_names_distinct(names: Seq<Seq<char>>) -> bool {
    forall|i: int, j: int| 0 <= i < j < names.len() ==> spec_utf8(#[trigger] names[i]) != spec_utf8(#[trigger] names[j])
}

/// The outcome of one build step.
pub open spec fn spec_step(l: Limits, ctx: TypeContext, c: Counters, st: Step) -> Result<Counters, TypeError> {
    match st {
        Step::Charge(ch) => match spec_apply(l, c, ch) {
            Ok(d) => Ok(d),
            Err(e) => Err(spec_limit_error(e.limit, e.maximum)),
        },
        Step::Signature(tag) => if ctx == TypeContext::Value { Err(TypeError::SignatureOnly(tag)) } else { Ok(c) },
        Step::Distinct(names) => if spec_names_distinct(names) {
            Ok(c)
        } else {
            Err(TypeError::Codec(spec_plain_error(ErrorKind::DuplicateMapKey)))
        },
    }
}

/// The outcome of build steps taken in order; the first failure is reported.
pub open spec fn spec_run(l: Limits, ctx: TypeContext, c: Counters, s: Seq<Step>) -> Result<Counters, TypeError>
    decreases s.len(),
{
    if s.len() == 0 {
        Ok(c)
    } else {
        match spec_run(l, ctx, c, s.drop_last()) {
            Ok(d) => spec_step(l, ctx, d, s.last()),
            Err(e) => Err(e),
        }
    }
}

/// Running a concatenation runs its parts in turn.
pub proof fn lemma_run_append(l: Limits, ctx: TypeContext, c: Counters, s: Seq<Step>, t: Seq<Step>)
    ensures
        spec_run(l, ctx, c, s + t) == match spec_run(l, ctx, c, s) {
            Ok(d) => spec_run(l, ctx, d, t),
            Err(e) => Err(e),
        },
    decreases t.len(),
{
    if t.len() == 0 {
        assert(s + t =~= s);
    } else {
        lemma_run_append(l, ctx, c, s, t.drop_last());
        assert((s + t).drop_last() =~= s + t.drop_last());
    }
}

/// Running one step is taking it.
pub proof fn lemma_run_single(l: Limits, ctx: TypeContext, c: Counters, st: Step)
    ensures
        spec_run(l, ctx, c, seq![st]) == spec_step(l, ctx, c, st),
{
    assert(seq![st].drop_last() =~= Seq::<Step>::empty());
    assert(spec_run(l, ctx, c, Seq::<Step>::empty()) == Ok::<Counters, TypeError>(c));
    assert(seq![st].last() == st);
}

/// Taking a first step, then the rest.
pub proof fn lemma_run_cons(l: Limits, ctx: TypeContext, c: Counters, st: Step, t: Seq<Step>)
    ensures
        spec_run(l, ctx, c, seq![st] + t) == match spec_step(l, ctx, c, st) {
            Ok(d) => spec_run(l, ctx, d, t),
            Err(e) => Err(e),
        },
{
    lemma_run_append(l, ctx, c, seq![st], t);
    lemma_run_single(l, ctx, c, st);
}

/// Entry `i` of the built entries is field `i`.
pub proof fn lemma_fields_records_index(built: Seq<(String, Value)>, fs: Seq<(Seq<char>, PortModel)>)
    requires
        spec_fields_records(built, fs),
    ensures
        built.len() == fs.len(),
        forall|i: int| 0 <= i < fs.len() ==> (#[trigger] built[i]).0@ == fs[i].0 && spec_port_record(built[i].1, fs[i].1),
    decreases fs.len(),
{
    if fs.len() > 0 {
        lemma_fields_records_index(built.drop_last(), fs.drop_last());
        assert forall|i: int| 0 <= i < fs.len() implies (#[trigger] built[i]).0@ == fs[i].0 && spec_port_record(built[i].1, fs[i].1) by {
            if i < fs.len() - 1 {
                assert(built[i] == built.drop_last()[i]);
                assert(fs[i] == fs.drop_last()[i]);
            }
        }
    }
}

/// The value built between two accounting states: its encoding is exactly
/// the document bytes charged, and from depth `d` it stays within the depth
/// ceiling.
pub open spec fn spec_sized(before: Counters, after: Counters, v: Value, d: int, l: Limits) -> bool {
    after.2 == before.2 + spec_encode(v).len() && spec_height(v) + d <= l.max_depth
}

/// Charging a text of `t` at depth `d`.
pub open spec fn spec_text_step(t: Seq<char>, d: int) -> Step {
    Step::Charge(Charge::Text { len: spec_utf8(t).len() as usize, depth: d as usize })
}

/// Charging a collection header of `len` entries at depth `d`.
pub open spec fn spec_collection_step(len: int, d: int) -> Step {
    Step::Charge(Charge::Collection { len: len as usize, depth: d as usize })
}

/// A tagged constructor array of `len` elements and its tag text.
pub open spec fn spec_tagged_steps(tag: Seq<char>, len: int, d: int) -> Seq<Step> {
    seq![spec_collection_step(len, d), spec_text_step(tag, d + 1)]
}

/// The steps of building the record of a type at depth `d`: each value
/// before its children, record fields and union members in stored order.
pub open spec fn spec_model_steps(m: TypeModel, d: int) -> Seq<Step>
    decreases m,
{
    match m {
        TypeModel::Primitive(p) => seq![spec_text_step(spec_primitive_name(p), d)],
        TypeModel::List(c) => spec_tagged_steps("list"@, 2, d) + spec_model_steps(*c, d + 1),
        TypeModel::StringMap(c) => spec_tagged_steps("map"@, 2, d) + spec_model_steps(*c, d + 1),
        TypeModel::Record(fs) => spec_tagged_steps("record"@, 2, d) + seq![spec_collection_step(fs.len() as int, d + 1)]
            + spec_fields_steps(fs, d + 2) + seq![Step::Distinct(fs.map_values(|f: (Seq<char>, PortModel)| f.0))],
        TypeModel::Union(ms) => spec_tagged_steps("union"@, 2, d) + seq![spec_collection_step(ms.len() as int, d + 1)]
            + spec_members_steps(ms, d + 2),
        TypeModel::Enum(ms) => spec_tagged_steps("enum"@, 2, d) + seq![spec_collection_step(ms.len() as int, d + 1)]
            + spec_texts_steps(ms, d + 2),
        TypeModel::Schema(b) => spec_tagged_steps("schema"@, 2, d) + seq![spec_text_step(crate::digest::spec_digest_text(b), d + 1)],
        TypeModel::Var(n) => seq![Step::Signature("var")] + spec_tagged_steps("var"@, 2, d) + seq![spec_text_step(n, d + 1)],
        TypeModel::Function(ps, r) => seq![Step::Signature("function")] + spec_tagged_steps("function"@, 3, d)
            + seq![spec_collection_step(ps.len() as int, d + 1)] + spec_ports_steps(ps, d + 2) + spec_port_steps(*r, d + 1),
    }
}

/// The steps of building a port record at depth `d`: `type`, then `required`.
pub open spec fn spec_port_steps(p: PortModel, d: int) -> Seq<Step>
    decreases p,
{
    seq![spec_collection_step(2, d), spec_text_step("type"@, d + 1)] + spec_model_steps(p.ty, d + 1)
        + seq![spec_text_step("required"@, d + 1), Step::Charge(Charge::Simple { depth: (d + 1) as usize })]
}

/// The steps of record fields at depth `d`: each name, then its port.
pub open spec fn spec_fields_steps(fs: Seq<(Seq<char>, PortModel)>, d: int) -> Seq<Step>
    decreases fs,
{
    if fs.len() == 0 {
        Seq::empty()
    } else {
        seq![spec_text_step(fs[0].0, d)] + spec_port_steps(fs[0].1, d) + spec_fields_steps(fs.drop_first(), d)
    }
}

/// The steps of union members at depth `d`.
pub open spec fn spec_members_steps(ms: Seq<TypeModel>, d: int) -> Seq<Step>
    decreases ms,
{
    if ms.len() == 0 {
        Seq::empty()
    } else {
        spec_model_steps(ms[0], d) + spec_members_steps(ms.drop_first(), d)
    }
}

/// The steps of ports at depth `d`.
pub open spec fn spec_ports_steps(ps: Seq<PortModel>, d: int) -> Seq<Step>
    decreases ps,
{
    if ps.len() == 0 {
        Seq::empty()
    } else {
        spec_port_steps(ps[0], d) + spec_ports_steps(ps.drop_first(), d)
    }
}

/// The steps of texts at depth `d`.
pub open spec fn spec_texts_steps(ts: Seq<Seq<char>>, d: int) -> Seq<Step>
    decreases ts.len(),
{
    if ts.len() == 0 {
        Seq::empty()
    } else {
        seq![spec_text_step(ts[0], d)] + spec_texts_steps(ts.drop_first(), d)
    }
}

/// `v` is the text `t`.
pub open spec fn spec_is_text(v: Value, t: Seq<char>) -> bool {
    v matches Value::Text(s) && s@ == t
}

/// `v` is a tagged constructor array of `len` elements with tag `tag`.
pub open spec fn spec_tagged(v: Value, tag: Seq<char>, len: int) -> bool {
    v matches Value::Array(a) && a@.len() == len && spec_is_text(a@[0], tag)
}

/// The `i`-th element of an array value.
pub open spec fn spec_elem(v: Value, i: int) -> Value {
    match v {
        Value::Array(a) => a@[i],
        _ => Value::Null,
    }
}

/// `v` is the canonical record of the type `m`: texts for primitives, tagged
/// arrays for constructors, record maps in canonical key order.
pub open spec fn spec_model_record(v: Value, m: TypeModel) -> bool
    decreases m,
{
    match m {
        TypeModel::Primitive(p) => spec_is_text(v, spec_primitive_name(p)),
        TypeModel::List(c) => spec_tagged(v, "list"@, 2) && spec_model_record(spec_elem(v, 1), *c),
        TypeModel::StringMap(c) => spec_tagged(v, "map"@, 2) && spec_model_record(spec_elem(v, 1), *c),
        TypeModel::Record(fs) => spec_tagged(v, "record"@, 2) && match spec_elem(v, 1) {
            Value::Object(map) => spec_keys_sorted(map.entries@) && exists|built: Seq<(String, Value)>|
                #[trigger] built.to_multiset() == map.entries@.to_multiset() && spec_fields_records(built, fs),
            _ => false,
        },
        TypeModel::Union(ms) => spec_tagged(v, "union"@, 2) && match spec_elem(v, 1) {
            Value::Array(a) => spec_members_records(a@, ms),
            _ => false,
        },
        TypeModel::Enum(ms) => spec_tagged(v, "enum"@, 2) && match spec_elem(v, 1) {
            Value::Array(a) => a@.len() == ms.len() && forall|i: int| 0 <= i < ms.len() ==> spec_is_text(#[trigger] a@[i], ms[i]),
            _ => false,
        },
        TypeModel::Schema(b) => spec_tagged(v, "schema"@, 2) && spec_is_text(spec_elem(v, 1), crate::digest::spec_digest_text(b)),
        TypeModel::Var(n) => spec_tagged(v, "var"@, 2) && spec_is_text(spec_elem(v, 1), n),
        TypeModel::Function(ps, r) => spec_tagged(v, "function"@, 3) && match spec_elem(v, 1) {
            Value::Array(a) => spec_ports_records(a@, ps),
            _ => false,
        } && spec_port_record(spec_elem(v, 2), *r),
    }
}

/// `v` is the canonical port record of `p`: exactly `type` then `required`.
pub open spec fn spec_port_record(v: Value, p: PortModel) -> bool
    decreases p,
{
    match v {
        Value::Object(map) => {
            &&& map.entries@.len() == 2
            &&& map.entries@[0].0@ == "type"@
            &&& spec_model_record(map.entries@[0].1, p.ty)
            &&& map.entries@[1].0@ == "required"@
            &&& map.entries@[1].1 == Value::Bool(p.required)
        },
        _ => false,
    }
}

/// Entry `i` of `built` is field `i`: its name and its port record.
pub open spec fn spec_fields_records(built: Seq<(String, Value)>, fs: Seq<(Seq<char>, PortModel)>) -> bool
    decreases fs,
{
    built.len() == fs.len() && (fs.len() == 0 || (
        spec_fields_records(built.drop_last(), fs.drop_last())
        && built.last().0@ == fs.last().0
        && spec_port_record(built.last().1, fs.last().1)))
}

/// Element `i` is the record of member `i`.
pub open spec fn spec_members_records(vs: Seq<Value>, ms: Seq<TypeModel>) -> bool
    decreases ms,
{
    vs.len() == ms.len() && (ms.len() == 0 || (
        spec_members_records(vs.drop_last(), ms.drop_last()) && spec_model_record(vs.last(), ms.last())))
}

/// Element `i` is the record of port `i`.
pub open spec fn spec_ports_records(vs: Seq<Value>, ps: Seq<PortModel>) -> bool
    decreases ps,
{
    vs.len() == ps.len() && (ps.len() == 0 || (
        spec_ports_records(vs.drop_last(), ps.drop_last()) && spec_port_record(vs.last(), ps.last())))
}

} // verus!

verus! {

/// Element `i` of the values is the record of member `i`.
pub proof fn lemma_members_records_index(vs: Seq<Value>, ms: Seq<TypeModel>)
    requires
        spec_members_records(vs, ms),
    ensures
        vs.len() == ms.len(),
        forall|i: int| 0 <= i < ms.len() ==> spec_model_record(#[trigger] vs[i], ms[i]),
    decreases ms.len(),
{
    if ms.len() > 0 {
        lemma_members_records_index(vs.drop_last(), ms.drop_last());
        assert forall|i: int| 0 <= i < ms.len() implies spec_model_record(#[trigger] vs[i], ms[i]) by {
            if i < ms.len() - 1 {
                assert(vs[i] == vs.drop_last()[i]);
                assert(ms[i] == ms.drop_last()[i]);
            }
        }
    }
}

/// Element `i` of the values is the record of port `i`.
pub proof fn lemma_ports_records_index(vs: Seq<Value>, ps: Seq<PortModel>)
    requires
        spec_ports_records(vs, ps),
    ensures
        vs.len() == ps.len(),
        forall|i: int| 0 <= i < ps.len() ==> spec_port_record(#[trigger] vs[i], ps[i]),
    decreases ps.len(),
{
    if ps.len() > 0 {
        lemma_ports_records_index(vs.drop_last(), ps.drop_last());
        assert forall|i: int| 0 <= i < ps.len() implies spec_port_record(#[trigger] vs[i], ps[i]) by {
            if i < ps.len() - 1 {
                assert(vs[i] == vs.drop_last()[i]);
                assert(ps[i] == ps.drop_last()[i]);
            }
        }
    }
}

/// Lists whose elements encode alike encode alike.
pub proof fn lemma_encode_list_pointwise(a: Seq<Value>, b: Seq<Value>)
    requires
        a.len() == b.len(),
        forall|i: int| 0 <= i < a.len() ==> spec_encode(#[trigger] a[i]) == spec_encode(b[i]),
    ensures
        crate::cbor::value::spec_encode_list(a) == crate::cbor::value::spec_encode_list(b),
    decreases a.len(),
{
    if a.len() > 0 {
        let ia = a.subrange(0, a.len() - 1);
        let ib = b.subrange(0, b.len() - 1);
        assert forall|i: int| 0 <= i < ia.len() implies spec_encode(#[trigger] ia[i]) == spec_encode(ib[i]) by {
            assert(ia[i] == a[i]);
            assert(ib[i] == b[i]);
        }
        lemma_encode_list_pointwise(ia, ib);
        assert(spec_encode(a[a.len() - 1]) == spec_encode(b[b.len() - 1]));
    }
}

/// Entries with equal keys whose values encode alike encode alike.
pub proof fn lemma_encode_entries_pointwise(a: Seq<(String, Value)>, b: Seq<(String, Value)>)
    requires
        a.len() == b.len(),
        forall|i: int| 0 <= i < a.len() ==> (#[trigger] a[i]).0@ == b[i].0@ && spec_encode(a[i].1) == spec_encode(b[i].1),
    ensures
        crate::cbor::value::spec_encode_entries(a) == crate::cbor::value::spec_encode_entries(b),
    decreases a.len(),
{
    if a.len() > 0 {
        let ia = a.subrange(0, a.len() - 1);
        let ib = b.subrange(0, b.len() - 1);
        assert forall|i: int| 0 <= i < ia.len() implies (#[trigger] ia[i]).0@ == ib[i].0@ && spec_encode(ia[i].1) == spec_encode(ib[i].1) by {
            assert(ia[i] == a[i]);
            assert(ib[i] == b[i]);
        }
        lemma_encode_entries_pointwise(ia, ib);
        assert(a[a.len() - 1].0@ == b[b.len() - 1].0@);
    }
}

/// Byte strings strictly increasing in canonical key order with the same
/// elements are equal.
pub proof fn lemma_sorted_keys_unique(s: Seq<Seq<u8>>, t: Seq<Seq<u8>>)
    requires
        forall|i: int, j: int| 0 <= i < j < s.len() ==> crate::cbor::value::spec_key_lt(#[trigger] s[i], #[trigger] s[j]),
        forall|i: int, j: int| 0 <= i < j < t.len() ==> crate::cbor::value::spec_key_lt(#[trigger] t[i], #[trigger] t[j]),
        forall|x: Seq<u8>| s.contains(x) <==> t.contains(x),
    ensures
        s == t,
    decreases s.len() + t.len(),
{
    if s.len() == 0 {
        if t.len() > 0 {
            assert(t.contains(t[0]));
        }
        assert(s =~= t);
    } else if t.len() == 0 {
        assert(s.contains(s[0]));
    } else {
        assert(s.contains(s[0]));
        assert(t.contains(t[0]));
        let k = choose|k: int| 0 <= k < t.len() && t[k] == s[0];
        let m = choose|m: int| 0 <= m < s.len() && s[m] == t[0];
        if k > 0 && m > 0 {
            crate::cbor::keys::lemma_key_order(t[0], t[k], s[m]);
            crate::cbor::keys::lemma_key_order(s[0], s[m], t[k]);
        }
        if k > 0 && m == 0 {
            crate::cbor::keys::lemma_key_order(t[0], t[k], t[k]);
        }
        if k == 0 && m > 0 {
            crate::cbor::keys::lemma_key_order(s[0], s[m], s[m]);
        }
        assert(s[0] == t[0]);
        let s1 = s.drop_first();
        let t1 = t.drop_first();
        assert forall|x: Seq<u8>| s1.contains(x) <==> t1.contains(x) by {
            if s1.contains(x) {
                let i = choose|i: int| 0 <= i < s1.len() && s1[i] == x;
                assert(s[i + 1] == x);
                crate::cbor::keys::lemma_key_order(s[0], x, x);
                assert(t.contains(x));
                let j = choose|j: int| 0 <= j < t.len() && t[j] == x;
                assert(j != 0);
                assert(t1[j - 1] == x);
            }
            if t1.contains(x) {
                let i = choose|i: int| 0 <= i < t1.len() && t1[i] == x;
                assert(t[i + 1] == x);
                crate::cbor::keys::lemma_key_order(t[0], x, x);
                assert(s.contains(x));
                let j = choose|j: int| 0 <= j < s.len() && s[j] == x;
                assert(j != 0);
                assert(s1[j - 1] == x);
            }
        }
        lemma_sorted_keys_unique(s1, t1);
        assert(s =~= seq![s[0]] + s1);
        assert(t =~= seq![t[0]] + t1);
    }
}

} // verus!

verus! {

/// UTF-8 encoding is injective.
pub proof fn lemma_utf8_injective(a: Seq<char>, b: Seq<char>)
    requires
        spec_utf8(a) == spec_utf8(b),
    ensures
        a == b,
{
    vstd::utf8::encode_utf8_decode_utf8(a);
    vstd::utf8::encode_utf8_decode_utf8(b);
}

/// The record maps of one record type encode alike.
proof fn lemma_record_map_unique(m1: crate::cbor::value::ValueMap, m2: crate::cbor::value::ValueMap, fs: Seq<(Seq<char>, PortModel)>)
    requires
        spec_keys_sorted(m1.entries@),
        spec_keys_sorted(m2.entries@),
        exists|built: Seq<(String, Value)>| #[trigger] built.to_multiset() == m1.entries@.to_multiset() && spec_fields_records(built, fs),
        exists|built: Seq<(String, Value)>| #[trigger] built.to_multiset() == m2.entries@.to_multiset() && spec_fields_records(built, fs),
    ensures
        spec_encode(Value::Object(m1)) == spec_encode(Value::Object(m2)),
    decreases fs, 0nat,
{
    let e1 = m1.entries@;
    let e2 = m2.entries@;
    let b1 = choose|built: Seq<(String, Value)>| #[trigger] built.to_multiset() == e1.to_multiset() && spec_fields_records(built, fs);
    let b2 = choose|built: Seq<(String, Value)>| #[trigger] built.to_multiset() == e2.to_multiset() && spec_fields_records(built, fs);
    lemma_fields_records_index(b1, fs);
    lemma_fields_records_index(b2, fs);
    b1.to_multiset_ensures();
    b2.to_multiset_ensures();
    e1.to_multiset_ensures();
    e2.to_multiset_ensures();
    crate::cbor::map::lemma_sorted_distinct(e1);
    crate::cbor::map::lemma_sorted_distinct(e2);
    crate::cbor::map::lemma_distinct_permutation(e1, b1);
    crate::cbor::map::lemma_distinct_permutation(e2, b2);
    let k1 = e1.map_values(|e: (String, Value)| spec_utf8(e.0@));
    let k2 = e2.map_values(|e: (String, Value)| spec_utf8(e.0@));
    // Each entry of either map is the entry of some field in the build order.
    assert forall|i: int| 0 <= i < e1.len() implies exists|j: int| 0 <= j < fs.len() && b1[j] == #[trigger] e1[i] by {
        assert(e1.to_multiset().count(e1[i]) > 0);
        assert(b1.contains(e1[i]));
    }
    assert forall|i: int| 0 <= i < e2.len() implies exists|j: int| 0 <= j < fs.len() && b2[j] == #[trigger] e2[i] by {
        assert(e2.to_multiset().count(e2[i]) > 0);
        assert(b2.contains(e2[i]));
    }
    assert forall|x: Seq<u8>| k1.contains(x) <==> k2.contains(x) by {
        if k1.contains(x) {
            let i = choose|i: int| 0 <= i < k1.len() && k1[i] == x;
            let j = choose|j: int| 0 <= j < fs.len() && b1[j] == e1[i];
            assert(b2.to_multiset().count(b2[j]) > 0);
            assert(e2.contains(b2[j]));
            let i2 = choose|i2: int| 0 <= i2 < e2.len() && e2[i2] == b2[j];
            assert(k2[i2] == x);
        }
        if k2.contains(x) {
            let i = choose|i: int| 0 <= i < k2.len() && k2[i] == x;
            let j = choose|j: int| 0 <= j < fs.len() && b2[j] == e2[i];
            assert(b1.to_multiset().count(b1[j]) > 0);
            assert(e1.contains(b1[j]));
            let i1 = choose|i1: int| 0 <= i1 < e1.len() && e1[i1] == b1[j];
            assert(k1[i1] == x);
        }
    }
    assert forall|i: int, j: int| 0 <= i < j < k1.len() implies crate::cbor::value::spec_key_lt(#[trigger] k1[i], #[trigger] k1[j]) by {}
    assert forall|i: int, j: int| 0 <= i < j < k2.len() implies crate::cbor::value::spec_key_lt(#[trigger] k2[i], #[trigger] k2[j]) by {}
    lemma_sorted_keys_unique(k1, k2);
    assert(e1.len() == e2.len()) by {
        assert(k1.len() == e1.len());
        assert(k2.len() == e2.len());
    }
    assert forall|i: int| 0 <= i < e1.len() implies (#[trigger] e1[i]).0@ == e2[i].0@ && spec_encode(e1[i].1) == spec_encode(e2[i].1) by {
        assert(k1[i] == k2[i]);
        lemma_utf8_injective(e1[i].0@, e2[i].0@);
        let j1 = choose|j: int| 0 <= j < fs.len() && b1[j] == e1[i];
        let j2 = choose|j: int| 0 <= j < fs.len() && b2[j] == e2[i];
        if j1 != j2 {
            assert(b1[j2].0@ == fs[j2].0);
            if j1 < j2 {
                assert(spec_utf8(b1[j1].0@) != spec_utf8(b1[j2].0@));
            } else {
                assert(spec_utf8(b1[j2].0@) != spec_utf8(b1[j1].0@));
            }
        }
        lemma_port_record_unique(e1[i].1, e2[i].1, fs[j1].1);
    }
    lemma_encode_entries_pointwise(e1, e2);
}

/// A port has one canonical record encoding.
pub proof fn lemma_port_record_unique(v1: Value, v2: Value, p: PortModel)
    requires
        spec_port_record(v1, p),
        spec_port_record(v2, p),
    ensures
        spec_encode(v1) == spec_encode(v2),
    decreases p, 1nat,
{
    let e1 = v1->Object_0.entries@;
    let e2 = v2->Object_0.entries@;
    lemma_record_unique(e1[0].1, e2[0].1, p.ty);
    lemma_encode_entries_pointwise(e1, e2);
}

/// A type has one canonical record encoding: any two records of it encode
/// to the same bytes.
pub proof fn lemma_record_unique(v1: Value, v2: Value, m: TypeModel)
    requires
        spec_model_record(v1, m),
        spec_model_record(v2, m),
    ensures
        spec_encode(v1) == spec_encode(v2),
    decreases m, 1nat,
{
    match m {
        TypeModel::Primitive(_) => {},
        _ => {
            let a1 = v1->Array_0@;
            let a2 = v2->Array_0@;
            assert forall|i: int| 0 <= i < a1.len() implies spec_encode(#[trigger] a1[i]) == spec_encode(a2[i]) by {
                if i > 0 {
                    match m {
                        TypeModel::List(c) => { lemma_record_unique(a1[i], a2[i], *c); },
                        TypeModel::StringMap(c) => { lemma_record_unique(a1[i], a2[i], *c); },
                        TypeModel::Record(fs) => {
                            lemma_record_map_unique(a1[1]->Object_0, a2[1]->Object_0, fs);
                        },
                        TypeModel::Union(ms) => {
                            let x1 = a1[1]->Array_0@;
                            let x2 = a2[1]->Array_0@;
                            lemma_members_records_index(x1, ms);
                            lemma_members_records_index(x2, ms);
                            assert forall|k: int| 0 <= k < x1.len() implies spec_encode(#[trigger] x1[k]) == spec_encode(x2[k]) by {
                                lemma_record_unique(x1[k], x2[k], ms[k]);
                            }
                            lemma_encode_list_pointwise(x1, x2);
                        },
                        TypeModel::Enum(ms) => {
                            let x1 = a1[1]->Array_0@;
                            let x2 = a2[1]->Array_0@;
                            assert forall|k: int| 0 <= k < x1.len() implies spec_encode(#[trigger] x1[k]) == spec_encode(x2[k]) by {
                                assert(spec_is_text(x1[k], ms[k]));
                                assert(spec_is_text(x2[k], ms[k]));
                            }
                            lemma_encode_list_pointwise(x1, x2);
                        },
                        TypeModel::Function(ps, r) => {
                            if i == 1 {
                                let x1 = a1[1]->Array_0@;
                                let x2 = a2[1]->Array_0@;
                                lemma_ports_records_index(x1, ps);
                                lemma_ports_records_index(x2, ps);
                                assert forall|k: int| 0 <= k < x1.len() implies spec_encode(#[trigger] x1[k]) == spec_encode(x2[k]) by {
                                    lemma_port_record_unique(x1[k], x2[k], ps[k]);
                                }
                                lemma_encode_list_pointwise(x1, x2);
                            } else {
                                lemma_port_record_unique(a1[2], a2[2], *r);
                            }
                        },
                        _ => {},
                    }
                }
            }
            lemma_encode_list_pointwise(a1, a2);
        },
    }
}

/// Lists whose elements denote the same data denote the same data.
pub proof fn lemma_same_list_pointwise(a: Seq<Value>, b: Seq<Value>)
    requires
        a.len() == b.len(),
        forall|i: int| 0 <= i < a.len() ==> crate::cbor::value::spec_same(#[trigger] a[i], b[i]),
    ensures
        crate::cbor::value::spec_same_list(a, b),
    decreases a.len(),
{
    if a.len() > 0 {
        let ia = a.subrange(0, a.len() - 1);
        let ib = b.subrange(0, b.len() - 1);
        assert forall|i: int| 0 <= i < ia.len() implies crate::cbor::value::spec_same(#[trigger] ia[i], ib[i]) by {
            assert(ia[i] == a[i]);
            assert(ib[i] == b[i]);
        }
        lemma_same_list_pointwise(ia, ib);
        assert(crate::cbor::value::spec_same(a[a.len() - 1], b[b.len() - 1]));
    }
}

/// Entries with equal keys whose values denote the same data denote the same data.
pub proof fn lemma_same_entries_pointwise(a: Seq<(String, Value)>, b: Seq<(String, Value)>)
    requires
        a.len() == b.len(),
        forall|i: int| 0 <= i < a.len() ==> (#[trigger] a[i]).0@ == b[i].0@ && crate::cbor::value::spec_same(a[i].1, b[i].1),
    ensures
        crate::cbor::value::spec_same_entries(a, b),
    decreases a.len(),
{
    if a.len() > 0 {
        let ia = a.subrange(0, a.len() - 1);
        let ib = b.subrange(0, b.len() - 1);
        assert forall|i: int| 0 <= i < ia.len() implies (#[trigger] ia[i]).0@ == ib[i].0@ && crate::cbor::value::spec_same(ia[i].1, ib[i].1) by {
            assert(ia[i] == a[i]);
            assert(ib[i] == b[i]);
        }
        lemma_same_entries_pointwise(ia, ib);
        assert(a[a.len() - 1].0@ == b[b.len() - 1].0@);
    }
}

/// The record maps of one record type denote the same data.
proof fn lemma_record_map_same(m1: crate::cbor::value::ValueMap, m2: crate::cbor::value::ValueMap, fs: Seq<(Seq<char>, PortModel)>)
    requires
        spec_keys_sorted(m1.entries@),
        spec_keys_sorted(m2.entries@),
        exists|built: Seq<(String, Value)>| #[trigger] built.to_multiset() == m1.entries@.to_multiset() && spec_fields_records(built, fs),
        exists|built: Seq<(String, Value)>| #[trigger] built.to_multiset() == m2.entries@.to_multiset() && spec_fields_records(built, fs),
    ensures
        crate::cbor::value::spec_same(Value::Object(m1), Value::Object(m2)),
    decreases fs, 0nat,
{
    let e1 = m1.entries@;
    let e2 = m2.entries@;
    let b1 = choose|built: Seq<(String, Value)>| #[trigger] built.to_multiset() == e1.to_multiset() && spec_fields_records(built, fs);
    let b2 = choose|built: Seq<(String, Value)>| #[trigger] built.to_multiset() == e2.to_multiset() && spec_fields_records(built, fs);
    lemma_fields_records_index(b1, fs);
    lemma_fields_records_index(b2, fs);
    b1.to_multiset_ensures();
    b2.to_multiset_ensures();
    e1.to_multiset_ensures();
    e2.to_multiset_ensures();
    crate::cbor::map::lemma_sorted_distinct(e1);
    crate::cbor::map::lemma_sorted_distinct(e2);
    crate::cbor::map::lemma_distinct_permutation(e1, b1);
    crate::cbor::map::lemma_distinct_permutation(e2, b2);
    let k1 = e1.map_values(|e: (String, Value)| spec_utf8(e.0@));
    let k2 = e2.map_values(|e: (String, Value)| spec_utf8(e.0@));
    // Each entry of either map is the entry of some field in the build order.
    assert forall|i: int| 0 <= i < e1.len() implies exists|j: int| 0 <= j < fs.len() && b1[j] == #[trigger] e1[i] by {
        assert(e1.to_multiset().count(e1[i]) > 0);
        assert(b1.contains(e1[i]));
    }
    assert forall|i: int| 0 <= i < e2.len() implies exists|j: int| 0 <= j < fs.len() && b2[j] == #[trigger] e2[i] by {
        assert(e2.to_multiset().count(e2[i]) > 0);
        assert(b2.contains(e2[i]));
    }
    assert forall|x: Seq<u8>| k1.contains(x) <==> k2.contains(x) by {
        if k1.contains(x) {
            let i = choose|i: int| 0 <= i < k1.len() && k1[i] == x;
            let j = choose|j: int| 0 <= j < fs.len() && b1[j] == e1[i];
            assert(b2.to_multiset().count(b2[j]) > 0);
            assert(e2.contains(b2[j]));
            let i2 = choose|i2: int| 0 <= i2 < e2.len() && e2[i2] == b2[j];
            assert(k2[i2] == x);
        }
        if k2.contains(x) {
            let i = choose|i: int| 0 <= i < k2.len() && k2[i] == x;
            let j = choose|j: int| 0 <= j < fs.len() && b2[j] == e2[i];
            assert(b1.to_multiset().count(b1[j]) > 0);
            assert(e1.contains(b1[j]));
            let i1 = choose|i1: int| 0 <= i1 < e1.len() && e1[i1] == b1[j];
            assert(k1[i1] == x);
        }
    }
    assert forall|i: int, j: int| 0 <= i < j < k1.len() implies crate::cbor::value::spec_key_lt(#[trigger] k1[i], #[trigger] k1[j]) by {}
    assert forall|i: int, j: int| 0 <= i < j < k2.len() implies crate::cbor::value::spec_key_lt(#[trigger] k2[i], #[trigger] k2[j]) by {}
    lemma_sorted_keys_unique(k1, k2);
    assert(e1.len() == e2.len()) by {
        assert(k1.len() == e1.len());
        assert(k2.len() == e2.len());
    }
    assert forall|i: int| 0 <= i < e1.len() implies (#[trigger] e1[i]).0@ == e2[i].0@ && crate::cbor::value::spec_same(e1[i].1, e2[i].1) by {
        assert(k1[i] == k2[i]);
        lemma_utf8_injective(e1[i].0@, e2[i].0@);
        let j1 = choose|j: int| 0 <= j < fs.len() && b1[j] == e1[i];
        let j2 = choose|j: int| 0 <= j < fs.len() && b2[j] == e2[i];
        if j1 != j2 {
            assert(b1[j2].0@ == fs[j2].0);
            if j1 < j2 {
                assert(spec_utf8(b1[j1].0@) != spec_utf8(b1[j2].0@));
            } else {
                assert(spec_utf8(b1[j2].0@) != spec_utf8(b1[j1].0@));
            }
        }
        lemma_port_record_same(e1[i].1, e2[i].1, fs[j1].1);
    }
    lemma_same_entries_pointwise(e1, e2);
}

/// Two records of one port denote the same data.
pub proof fn lemma_port_record_same(v1: Value, v2: Value, p: PortModel)
    requires
        spec_port_record(v1, p),
        spec_port_record(v2, p),
    ensures
        crate::cbor::value::spec_same(v1, v2),
    decreases p, 1nat,
{
    let e1 = v1->Object_0.entries@;
    let e2 = v2->Object_0.entries@;
    lemma_record_same(e1[0].1, e2[0].1, p.ty);
    lemma_same_entries_pointwise(e1, e2);
}

/// Two records of one type denote the same data.
pub proof fn lemma_record_same(v1: Value, v2: Value, m: TypeModel)
    requires
        spec_model_record(v1, m),
        spec_model_record(v2, m),
    ensures
        crate::cbor::value::spec_same(v1, v2),
    decreases m, 1nat,
{
    match m {
        TypeModel::Primitive(_) => {},
        _ => {
            let a1 = v1->Array_0@;
            let a2 = v2->Array_0@;
            assert forall|i: int| 0 <= i < a1.len() implies crate::cbor::value::spec_same(#[trigger] a1[i], a2[i]) by {
                if i > 0 {
                    match m {
                        TypeModel::List(c) => { lemma_record_same(a1[i], a2[i], *c); },
                        TypeModel::StringMap(c) => { lemma_record_same(a1[i], a2[i], *c); },
                        TypeModel::Record(fs) => {
                            lemma_record_map_same(a1[1]->Object_0, a2[1]->Object_0, fs);
                        },
                        TypeModel::Union(ms) => {
                            let x1 = a1[1]->Array_0@;
                            let x2 = a2[1]->Array_0@;
                            lemma_members_records_index(x1, ms);
                            lemma_members_records_index(x2, ms);
                            assert forall|k: int| 0 <= k < x1.len() implies crate::cbor::value::spec_same(#[trigger] x1[k], x2[k]) by {
                                lemma_record_same(x1[k], x2[k], ms[k]);
                            }
                            lemma_same_list_pointwise(x1, x2);
                        },
                        TypeModel::Enum(ms) => {
                            let x1 = a1[1]->Array_0@;
                            let x2 = a2[1]->Array_0@;
                            assert forall|k: int| 0 <= k < x1.len() implies crate::cbor::value::spec_same(#[trigger] x1[k], x2[k]) by {
                                assert(spec_is_text(x1[k], ms[k]));
                                assert(spec_is_text(x2[k], ms[k]));
                            }
                            lemma_same_list_pointwise(x1, x2);
                        },
                        TypeModel::Function(ps, r) => {
                            if i == 1 {
                                let x1 = a1[1]->Array_0@;
                                let x2 = a2[1]->Array_0@;
                                lemma_ports_records_index(x1, ps);
                                lemma_ports_records_index(x2, ps);
                                assert forall|k: int| 0 <= k < x1.len() implies crate::cbor::value::spec_same(#[trigger] x1[k], x2[k]) by {
                                    lemma_port_record_same(x1[k], x2[k], ps[k]);
                                }
                                lemma_same_list_pointwise(x1, x2);
                            } else {
                                lemma_port_record_same(a1[2], a2[2], *r);
                            }
                        },
                        _ => {},
                    }
                }
            }
            lemma_same_list_pointwise(a1, a2);
        },
    }
}

} // verus!

verus! {

/// Successful steps never take the document bytes past their ceiling.
pub proof fn lemma_run_bytes_bound(l: Limits, ctx: TypeContext, c: Counters, s: Seq<Step>)
    requires
        c.2 <= l.max_document_bytes,
    ensures
        spec_run(l, ctx, c, s) matches Ok(d) ==> d.2 <= l.max_document_bytes,
    decreases s.len(),
{
    if s.len() > 0 {
        lemma_run_bytes_bound(l, ctx, c, s.drop_last());
    }
}

} // verus!

verus! {

/// The models of concatenated types are the concatenated models.
pub proof fn lemma_types_model_append(s: Seq<ValueType>, t: Seq<ValueType>)
    ensures
        spec_types_model(s + t) == spec_types_model(s) + spec_types_model(t),
    decreases t.len(),
{
    if t.len() == 0 {
        assert(s + t =~= s);
        assert(spec_types_model(s) + spec_types_model(t) =~= spec_types_model(s));
    } else {
        lemma_types_model_append(s, t.drop_last());
        assert((s + t).drop_last() =~= s + t.drop_last());
        assert(spec_types_model(s) + spec_types_model(t) =~= (spec_types_model(s) + spec_types_model(t.drop_last()))
            .push(spec_type_model(t.last().kind)));
    }
}

} // verus!

verus! {

/// What charging the canonical record of port `p` at `depth` charges.
#[verifier::opaque]
pub open spec fn spec_port_value_charges(p: PortModel, depth: int) -> Seq<Charge> {
    crate::record_accounting::spec_value_charges(choose|v: Value| spec_port_record(v, p), depth)
}

/// Any canonical record of a port is charged as [`spec_port_value_charges`] says.
pub proof fn lemma_port_value_charges(v: Value, p: PortModel, depth: int)
    requires
        spec_port_record(v, p),
    ensures
        crate::record_accounting::spec_value_charges(v, depth) == spec_port_value_charges(p, depth),
{
    reveal(spec_port_value_charges);
    let w = choose|w: Value| spec_port_record(w, p);
    lemma_port_record_same(v, w, p);
    crate::record_accounting::lemma_same_charges(v, w, depth);
}

} // verus!

