//! Building canonical type and port records, bounding every value before it
//! is produced.

use vstd::prelude::*;
use vstd::string::*;

use super::{Port, TypeContext, ValueType, ValueTypeKind};
use super::model::{
    lemma_fields_model, lemma_fields_records_index, lemma_ports_model, lemma_run_append, lemma_run_cons,
    lemma_run_single, lemma_types_model, spec_collection_step, spec_fields_model, spec_fields_records,
    spec_fields_steps, spec_is_text, spec_members_records, spec_members_steps, spec_model_record, spec_model_steps,
    spec_port_model, spec_port_record, spec_port_steps, spec_ports_model, spec_ports_records, spec_ports_steps,
    spec_run, spec_step, spec_tagged_steps, spec_text_step, spec_texts_steps, spec_type_model, spec_types_model,
    spec_sized, PortModel, Step, TypeError, TypeModel,
};
use crate::cbor::size::{lemma_entries_perm_len, lemma_entries_push, lemma_head_len, lemma_height_entries_bound,
    lemma_height_list_bound, lemma_list_push, lemma_text_len};
use crate::cbor::value::{spec_encode, spec_encode_entries, spec_encode_list, spec_height, spec_utf8, Value, ValueMap};
use crate::record_accounting::{spec_header_size, Charge, RecordAccounting};

verus! {

/// Charges one value.
fn charge(acc: &mut RecordAccounting, ctx: TypeContext, ch: Charge) -> (res: Result<(), TypeError>)
    ensures
        final(acc).limits == old(acc).limits,
        match spec_step(*old(acc).limits, ctx, old(acc).counters(), Step::Charge(ch)) {
            Ok(c) => res is Ok && final(acc).counters() == c,
            Err(e) => res == Err::<(), TypeError>(e),
        },
{
    match acc.apply(ch) {
        Ok(()) => Ok(()),
        Err(e) => Err(TypeError::LimitExceeded { limit: e.limit, maximum: e.maximum }),
    }
}

/// Refuses a signature-only constructor in value context.
fn signature(ctx: TypeContext, tag: &'static str) -> (res: Result<(), TypeError>)
    ensures
        ctx == TypeContext::Value ==> res == Err::<(), TypeError>(TypeError::SignatureOnly(tag)),
        ctx == TypeContext::Signature ==> res is Ok,
{
    match ctx {
        TypeContext::Value => Err(TypeError::SignatureOnly(tag)),
        TypeContext::Signature => Ok(()),
    }
}

/// Charges one text.
fn charge_text(acc: &mut RecordAccounting, ctx: TypeContext, t: &str, d: usize) -> (res: Result<(), TypeError>)
    ensures
        final(acc).limits == old(acc).limits,
        match spec_step(*old(acc).limits, ctx, old(acc).counters(), spec_text_step(t@, d as int)) {
            Ok(c) => res is Ok && final(acc).counters() == c
                && c.2 == old(acc).counters().2 + spec_header_size(spec_utf8(t@).len()) + spec_utf8(t@).len()
                && d <= old(acc).limits.max_depth,
            Err(e) => res == Err::<(), TypeError>(e),
        },
{
    let len = t.as_bytes().len();
    assert(len == spec_utf8(t@).len());
    charge(acc, ctx, Charge::Text { len, depth: d })
}

/// Charges and produces one text value.
fn text_value(acc: &mut RecordAccounting, ctx: TypeContext, t: &str, d: usize) -> (res: Result<Value, TypeError>)
    ensures
        final(acc).limits == old(acc).limits,
        match spec_step(*old(acc).limits, ctx, old(acc).counters(), spec_text_step(t@, d as int)) {
            Ok(c) => res matches Ok(v) && final(acc).counters() == c && spec_is_text(v, t@)
                && spec_sized(old(acc).counters(), c, v, d as int, *old(acc).limits),
            Err(e) => res == Err::<Value, TypeError>(e),
        },
{
    charge_text(acc, ctx, t, d)?;
    let v = Value::Text(String::from_str(t));
    proof { lemma_text_len(t@); }
    Ok(v)
}

/// Charges a constructor array header and its tag.
fn tagged(acc: &mut RecordAccounting, ctx: TypeContext, tag: &str, len: usize, d: usize) -> (res: Result<Value, TypeError>)
    requires
        old(acc).limits.spec_valid(),
    ensures
        final(acc).limits == old(acc).limits,
        match spec_run(*old(acc).limits, ctx, old(acc).counters(), spec_tagged_steps(tag@, len as int, d as int)) {
            Ok(c) => res matches Ok(v) && final(acc).counters() == c && spec_is_text(v, tag@)
                && d < old(acc).limits.max_depth + 1
                && c.2 == old(acc).counters().2 + spec_header_size(len as nat) + spec_encode(v).len()
                && spec_height(v) == 0,
            Err(e) => res == Err::<Value, TypeError>(e),
        },
{
    let ghost l = *acc.limits;
    proof {
        assert(spec_tagged_steps(tag@, len as int, d as int) =~= seq![spec_collection_step(len as int, d as int)]
            + seq![spec_text_step(tag@, d + 1)]);
        lemma_run_cons(l, ctx, acc.counters(), spec_collection_step(len as int, d as int), seq![spec_text_step(tag@, d + 1)]);
    }
    charge(acc, ctx, Charge::Collection { len, depth: d })?;
    proof {
        lemma_run_single(l, ctx, acc.counters(), spec_text_step(tag@, d + 1));
    }
    text_value(acc, ctx, tag, d + 1)
}

/// A two-element array.
fn pair(a: Value, b: Value) -> (res: Value)
    ensures
        res matches Value::Array(v) && v@ == seq![a, b],
        spec_encode(res).len() == 1 + spec_encode(a).len() + spec_encode(b).len(),
        spec_height(res) == 1 + if spec_height(a) >= spec_height(b) { spec_height(a) } else { spec_height(b) },
{
    let mut v: Vec<Value> = Vec::new();
    v.push(a);
    v.push(b);
    proof {
        lemma_list_push(Seq::<Value>::empty(), a);
        lemma_list_push(seq![a], b);
        assert(Seq::<Value>::empty().push(a) =~= seq![a]);
        assert(seq![a].push(b) =~= seq![a, b]);
        assert(spec_encode_list(Seq::<Value>::empty()) =~= Seq::<u8>::empty());
        lemma_head_len(4, 2);
    }
    Value::Array(v)
}

/// Builds the canonical record of a type shape at depth `d`.
#[verifier::rlimit(80)]
pub fn build_type(acc: &mut RecordAccounting, ctx: TypeContext, k: &ValueTypeKind, d: usize) -> (res: Result<Value, TypeError>)
    requires
        old(acc).limits.spec_valid(),
    ensures
        final(acc).limits == old(acc).limits,
        match spec_run(*old(acc).limits, ctx, old(acc).counters(), spec_model_steps(spec_type_model(*k), d as int)) {
            Ok(c) => res matches Ok(v) && final(acc).counters() == c && spec_model_record(v, spec_type_model(*k))
                && spec_sized(old(acc).counters(), c, v, d as int, *old(acc).limits),
            Err(e) => res == Err::<Value, TypeError>(e),
        },
    decreases k, 1nat,
{
    let ghost l = *acc.limits;
    let ghost c0 = acc.counters();
    match k {
        ValueTypeKind::Primitive(p) => {
            proof { lemma_run_single(l, ctx, c0, spec_text_step(super::spec_primitive_name(*p), d as int)); }
            text_value(acc, ctx, p.as_str(), d)
        },
        ValueTypeKind::List(c) => build_list(acc, ctx, true, c, d),
        ValueTypeKind::StringMap(c) => build_list(acc, ctx, false, c, d),
        ValueTypeKind::Record(fields) => build_record(acc, ctx, fields, d),
        ValueTypeKind::Union(members) => build_union(acc, ctx, members, d),
        ValueTypeKind::Enum(members) => build_enum(acc, ctx, members, d),
        ValueTypeKind::Schema(digest) => build_schema(acc, ctx, digest, d),
        ValueTypeKind::Var(name) => build_var(acc, ctx, name, d),
        ValueTypeKind::Function { .. } => build_function(acc, ctx, k, d),
    }
}

/// Builds a function constructor; refused in value context.
#[verifier::rlimit(40)]
fn build_function(acc: &mut RecordAccounting, ctx: TypeContext, k: &ValueTypeKind, d: usize) -> (res: Result<Value, TypeError>)
    requires
        old(acc).limits.spec_valid(),
        k is Function,
    ensures
        final(acc).limits == old(acc).limits,
        match spec_run(*old(acc).limits, ctx, old(acc).counters(), spec_model_steps(spec_type_model(*k), d as int)) {
            Ok(c) => res matches Ok(v) && final(acc).counters() == c && spec_model_record(v, spec_type_model(*k))
                && spec_sized(old(acc).counters(), c, v, d as int, *old(acc).limits),
            Err(e) => res == Err::<Value, TypeError>(e),
        },
    decreases k, 0nat,
{
    let ghost l = *acc.limits;
    let ghost c0 = acc.counters();
    let (parameters, result) = match k {
        ValueTypeKind::Function { parameters, result } => (parameters, result),
        _ => { proof { assert(false); } return Err(TypeError::AllocationFailed); },
    };
    let ghost ps = spec_ports_model(parameters@);
    let ghost r = spec_port_model(**result);
    let ghost rest = spec_tagged_steps("function"@, 3, d as int) + (seq![spec_collection_step(ps.len() as int, d + 1)]
        + (spec_ports_steps(ps, d + 2) + spec_port_steps(r, d + 1)));
    proof {
        lemma_ports_model(parameters@);
        assert(spec_model_steps(spec_type_model(*k), d as int) =~= seq![Step::Signature("function")] + rest);
        lemma_run_cons(l, ctx, c0, Step::Signature("function"), rest);
        lemma_run_append(l, ctx, c0, spec_tagged_steps("function"@, 3, d as int), seq![spec_collection_step(ps.len() as int, d + 1)]
            + (spec_ports_steps(ps, d + 2) + spec_port_steps(r, d + 1)));
    }
    signature(ctx, "function")?;
    let tag = tagged(acc, ctx, "function", 3, d)?;
    proof {
        assert(seq![spec_collection_step(ps.len() as int, d + 1)] + (spec_ports_steps(ps, d + 2) + spec_port_steps(r, d + 1))
            =~= (seq![spec_collection_step(ps.len() as int, d + 1)] + spec_ports_steps(ps, d + 2)) + spec_port_steps(r, d + 1));
        lemma_run_append(l, ctx, acc.counters(), seq![spec_collection_step(ps.len() as int, d + 1)] + spec_ports_steps(ps, d + 2),
            spec_port_steps(r, d + 1));
    }
    let params = build_ports(acc, ctx, parameters, d + 1)?;
    let ret = build_port(acc, ctx, &**result, d + 1)?;
    let mut v: Vec<Value> = Vec::new();
    v.push(tag);
    v.push(params);
    v.push(ret);
    proof {
        lemma_list_push(Seq::<Value>::empty(), tag);
        lemma_list_push(seq![tag], params);
        lemma_list_push(seq![tag, params], ret);
        assert(Seq::<Value>::empty().push(tag) =~= seq![tag]);
        assert(seq![tag].push(params) =~= seq![tag, params]);
        assert(seq![tag, params].push(ret) =~= v@);
        assert(spec_encode_list(Seq::<Value>::empty()) =~= Seq::<u8>::empty());
        lemma_head_len(4, 3);
    }
    Ok(Value::Array(v))

}

/// The model of a list (or, otherwise, string-keyed map) of `child`.
pub open spec fn spec_list_model(is_list: bool, child: ValueType) -> TypeModel {
    if is_list {
        TypeModel::List(Box::new(spec_type_model(child.kind)))
    } else {
        TypeModel::StringMap(Box::new(spec_type_model(child.kind)))
    }
}

/// Builds a list or string-keyed map constructor around the child type.
fn build_list(acc: &mut RecordAccounting, ctx: TypeContext, is_list: bool, c: &Box<ValueType>, d: usize) -> (res: Result<Value, TypeError>)
    requires
        old(acc).limits.spec_valid(),
    ensures
        final(acc).limits == old(acc).limits,
        match spec_run(*old(acc).limits, ctx, old(acc).counters(), spec_model_steps(spec_list_model(is_list, **c), d as int)) {
            Ok(r) => res matches Ok(v) && final(acc).counters() == r && spec_model_record(v, spec_list_model(is_list, **c))
                && spec_sized(old(acc).counters(), r, v, d as int, *old(acc).limits),
            Err(e) => res == Err::<Value, TypeError>(e),
        },
    decreases c, 0nat,
{
    let ghost l = *acc.limits;
    let tag_text = if is_list { "list" } else { "map" };
    proof {
        lemma_run_append(l, ctx, acc.counters(), spec_tagged_steps(tag_text@, 2, d as int), spec_model_steps(spec_type_model(c.kind), d + 1));
    }
    let tag = tagged(acc, ctx, tag_text, 2, d)?;
    let child = build_type(acc, ctx, &c.kind, d + 1)?;
    Ok(pair(tag, child))
}

/// Builds the canonical port record at depth `d`: `type`, then `required`.
#[verifier::rlimit(40)]
pub fn build_port(acc: &mut RecordAccounting, ctx: TypeContext, p: &Port, d: usize) -> (res: Result<Value, TypeError>)
    requires
        old(acc).limits.spec_valid(),
    ensures
        final(acc).limits == old(acc).limits,
        match spec_run(*old(acc).limits, ctx, old(acc).counters(), spec_port_steps(spec_port_model(*p), d as int)) {
            Ok(c) => res matches Ok(v) && final(acc).counters() == c && spec_port_record(v, spec_port_model(*p))
                && spec_sized(old(acc).counters(), c, v, d as int, *old(acc).limits),
            Err(e) => res == Err::<Value, TypeError>(e),
        },
    decreases p, 0nat,
{
    let ghost l = *acc.limits;
    let ghost m = spec_port_model(*p);
    let ghost tail = seq![spec_text_step("required"@, d + 1), Step::Charge(Charge::Simple { depth: (d + 1) as usize })];
    let ghost head = seq![spec_collection_step(2, d as int), spec_text_step("type"@, d + 1)];
    proof {
        assert(spec_port_steps(m, d as int) =~= seq![spec_collection_step(2, d as int)]
            + (seq![spec_text_step("type"@, d + 1)] + (spec_model_steps(m.ty, d + 1) + tail)));
        lemma_run_cons(l, ctx, acc.counters(), spec_collection_step(2, d as int),
            seq![spec_text_step("type"@, d + 1)] + (spec_model_steps(m.ty, d + 1) + tail));
    }
    charge(acc, ctx, Charge::Collection { len: 2, depth: d })?;
    proof {
        lemma_run_cons(l, ctx, acc.counters(), spec_text_step("type"@, d + 1), spec_model_steps(m.ty, d + 1) + tail);
    }
    charge_text(acc, ctx, "type", d + 1)?;
    proof { lemma_run_append(l, ctx, acc.counters(), spec_model_steps(m.ty, d + 1), tail); }
    let ty = build_type(acc, ctx, &p.value_type.kind, d + 1)?;
    proof {
        assert(tail =~= seq![spec_text_step("required"@, d + 1)] + seq![Step::Charge(Charge::Simple { depth: (d + 1) as usize })]);
        lemma_run_cons(l, ctx, acc.counters(), spec_text_step("required"@, d + 1),
            seq![Step::Charge(Charge::Simple { depth: (d + 1) as usize })]);
    }
    charge_text(acc, ctx, "required", d + 1)?;
    proof { lemma_run_single(l, ctx, acc.counters(), Step::Charge(Charge::Simple { depth: (d + 1) as usize })); }
    charge(acc, ctx, Charge::Simple { depth: d + 1 })?;
    let mut entries: Vec<(String, Value)> = Vec::new();
    let e0 = (String::from_str("type"), ty);
    let e1 = (String::from_str("required"), Value::Bool(p.required));
    entries.push(e0);
    entries.push(e1);
    proof {
        lemma_entries_push(Seq::<(String, Value)>::empty(), e0);
        lemma_entries_push(seq![e0], e1);
        assert(Seq::<(String, Value)>::empty().push(e0) =~= seq![e0]);
        assert(seq![e0].push(e1) =~= entries@);
        assert(spec_encode_entries(Seq::<(String, Value)>::empty()) =~= Seq::<u8>::empty());
        lemma_head_len(5, 2);
        lemma_text_len("type"@);
        lemma_text_len("required"@);
        lemma_height_entries_bound(entries@, spec_height(e0.1));
    }
    Ok(Value::Object(ValueMap { entries }))
}

/// Builds a record constructor: its header, each field name and port in
/// stored order, then the map in canonical key order.
#[verifier::rlimit(60)]
fn build_record(acc: &mut RecordAccounting, ctx: TypeContext, fields: &Vec<(String, Port)>, d: usize) -> (res: Result<Value, TypeError>)
    requires
        old(acc).limits.spec_valid(),
    ensures
        final(acc).limits == old(acc).limits,
        match spec_run(*old(acc).limits, ctx, old(acc).counters(), spec_model_steps(TypeModel::Record(spec_fields_model(fields@)), d as int)) {
            Ok(c) => res matches Ok(v) && final(acc).counters() == c && spec_model_record(v, TypeModel::Record(spec_fields_model(fields@)))
                && spec_sized(old(acc).counters(), c, v, d as int, *old(acc).limits),
            Err(e) => res == Err::<Value, TypeError>(e),
        },
    decreases fields, 0nat,
{
    let ghost l = *acc.limits;
    let ghost fs = spec_fields_model(fields@);
    let ghost tail = seq![Step::Distinct(fs.map_values(|f: (Seq<char>, PortModel)| f.0))];
    proof {
        lemma_fields_model(fields@);
        assert(spec_model_steps(TypeModel::Record(fs), d as int) =~= spec_tagged_steps("record"@, 2, d as int)
            + (seq![spec_collection_step(fs.len() as int, d + 1)] + (spec_fields_steps(fs, d + 2) + tail)));
        lemma_run_append(l, ctx, acc.counters(), spec_tagged_steps("record"@, 2, d as int),
            seq![spec_collection_step(fs.len() as int, d + 1)] + (spec_fields_steps(fs, d + 2) + tail));
    }
    let tag = tagged(acc, ctx, "record", 2, d)?;
    proof {
        lemma_run_cons(l, ctx, acc.counters(), spec_collection_step(fs.len() as int, d + 1), spec_fields_steps(fs, d + 2) + tail);
    }
    charge(acc, ctx, Charge::Collection { len: fields.len(), depth: d + 1 })?;
    let ghost c_start = acc.counters();
    let mut built: Vec<(String, Value)> = Vec::new();
    let mut i: usize = 0;
    proof {
        assert(fs.skip(0) =~= fs);
        assert(fs.take(0) =~= Seq::<(Seq<char>, PortModel)>::empty());
    }
    while i < fields.len()
        invariant
            l == *acc.limits,
            acc.counters().2 == c_start.2 + spec_encode_entries(built@).len(),
            forall|j: int| 0 <= j < built@.len() ==> spec_height((#[trigger] built@[j]).1) + d + 2 <= l.max_depth,
            c_start.2 == old(acc).counters().2 + 1 + spec_encode(tag).len() + spec_header_size(fields@.len() as nat),
            spec_height(tag) == 0,
            acc.limits == old(acc).limits,
            spec_run(l, ctx, old(acc).counters(), spec_model_steps(TypeModel::Record(fs), d as int))
                == spec_run(l, ctx, c_start, spec_fields_steps(fs, d + 2) + tail),
            l.spec_valid(),
            d < l.max_depth + 1,
            i <= fields@.len(),
            fs == spec_fields_model(fields@),
            fs.len() == fields@.len(),
            forall|j: int| 0 <= j < fields@.len() ==> #[trigger] fs[j] == (fields@[j].0@, spec_port_model(fields@[j].1)),
            spec_run(l, ctx, c_start, spec_fields_steps(fs, d + 2) + tail)
                == spec_run(l, ctx, acc.counters(), spec_fields_steps(fs.skip(i as int), d + 2) + tail),
            spec_fields_records(built@, fs.take(i as int)),
        decreases fields@.len() - i,
    {
        let ghost f = fs[i as int];
        proof {
            assert(fs.skip(i as int).drop_first() =~= fs.skip(i + 1));
            assert(fs.skip(i as int)[0] == f);
            assert(spec_fields_steps(fs.skip(i as int), d + 2) + tail =~= seq![spec_text_step(f.0, d + 2)]
                + (spec_port_steps(f.1, d + 2) + (spec_fields_steps(fs.skip(i + 1), d + 2) + tail)));
            lemma_run_cons(l, ctx, acc.counters(), spec_text_step(f.0, d + 2),
                spec_port_steps(f.1, d + 2) + (spec_fields_steps(fs.skip(i + 1), d + 2) + tail));
        }
        charge_text(acc, ctx, fields[i].0.as_str(), d + 2)?;
        proof {
            lemma_run_append(l, ctx, acc.counters(), spec_port_steps(f.1, d + 2), spec_fields_steps(fs.skip(i + 1), d + 2) + tail);
        }
        let port = build_port(acc, ctx, &fields[i].1, d + 2)?;
        let ghost before = built@;
        let entry = (String::from_str(fields[i].0.as_str()), port);
        built.push(entry);
        proof {
            lemma_text_len(fields@[i as int].0@);
            lemma_entries_push(before, entry);
            assert(fs.take(i + 1).drop_last() =~= fs.take(i as int));
            assert(built@.drop_last() =~= before);
        }
        i = i + 1;
    }
    proof {
        assert(fs.skip(i as int) =~= Seq::<(Seq<char>, PortModel)>::empty());
        assert(fs.take(i as int) =~= fs);
        assert(spec_fields_steps(fs.skip(i as int), d + 2) + tail =~= tail);
        lemma_run_single(l, ctx, acc.counters(), tail[0]);
        assert(tail =~= seq![tail[0]]);
        lemma_fields_records_index(built@, fs);
        let names = fs.map_values(|f: (Seq<char>, PortModel)| f.0);
        assert forall|a: int| 0 <= a < names.len() implies #[trigger] names[a] == built@[a].0@ by {}
        assert(crate::cbor::map::spec_keys_distinct(built@) == super::model::spec_names_distinct(names)) by {
            if crate::cbor::map::spec_keys_distinct(built@) {
                assert forall|a: int, b: int| 0 <= a < b < names.len() implies spec_utf8(#[trigger] names[a]) != spec_utf8(#[trigger] names[b]) by {
                    assert(names[a] == built@[a].0@);
                    assert(names[b] == built@[b].0@);
                }
            }
            if super::model::spec_names_distinct(names) {
                assert forall|a: int, b: int| 0 <= a < b < built@.len() implies spec_utf8(#[trigger] built@[a].0@) != spec_utf8(#[trigger] built@[b].0@) by {
                    assert(names[a] == built@[a].0@);
                    assert(names[b] == built@[b].0@);
                }
            }
        }
    }
    let ghost b = built@;
    let map = match ValueMap::try_from_entries(built) {
        Ok(m) => m,
        Err(e) => return Err(TypeError::Codec(e)),
    };
    proof {
        b.to_multiset_ensures();
        map.entries@.to_multiset_ensures();
        lemma_entries_perm_len(map.entries@, b);
        lemma_head_len(5, map.entries@.len());
        assert forall|j: int| 0 <= j < map.entries@.len() implies spec_height((#[trigger] map.entries@[j]).1) + d + 2 <= l.max_depth by {
            assert(map.entries@.to_multiset().count(map.entries@[j]) > 0);
            assert(b.contains(map.entries@[j]));
        }
        if map.entries@.len() > 0 {
            lemma_height_entries_bound(map.entries@, (l.max_depth - d - 2) as nat);
        }
    }
    Ok(pair(tag, Value::Object(map)))
}

/// Builds a union constructor: its header, then each member in stored order.
#[verifier::rlimit(40)]
fn build_union(acc: &mut RecordAccounting, ctx: TypeContext, members: &Vec<ValueType>, d: usize) -> (res: Result<Value, TypeError>)
    requires
        old(acc).limits.spec_valid(),
    ensures
        final(acc).limits == old(acc).limits,
        match spec_run(*old(acc).limits, ctx, old(acc).counters(), spec_model_steps(TypeModel::Union(spec_types_model(members@)), d as int)) {
            Ok(c) => res matches Ok(v) && final(acc).counters() == c && spec_model_record(v, TypeModel::Union(spec_types_model(members@)))
                && spec_sized(old(acc).counters(), c, v, d as int, *old(acc).limits),
            Err(e) => res == Err::<Value, TypeError>(e),
        },
    decreases members, 0nat,
{
    let ghost l = *acc.limits;
    let ghost ms = spec_types_model(members@);
    proof {
        lemma_types_model(members@);
        assert(spec_model_steps(TypeModel::Union(ms), d as int) =~= spec_tagged_steps("union"@, 2, d as int)
            + (seq![spec_collection_step(ms.len() as int, d + 1)] + spec_members_steps(ms, d + 2)));
        lemma_run_append(l, ctx, acc.counters(), spec_tagged_steps("union"@, 2, d as int),
            seq![spec_collection_step(ms.len() as int, d + 1)] + spec_members_steps(ms, d + 2));
    }
    let tag = tagged(acc, ctx, "union", 2, d)?;
    proof {
        lemma_run_cons(l, ctx, acc.counters(), spec_collection_step(ms.len() as int, d + 1), spec_members_steps(ms, d + 2));
    }
    charge(acc, ctx, Charge::Collection { len: members.len(), depth: d + 1 })?;
    let ghost c_start = acc.counters();
    let mut children: Vec<Value> = Vec::new();
    let mut i: usize = 0;
    proof {
        assert(ms.skip(0) =~= ms);
        assert(ms.take(0) =~= Seq::<TypeModel>::empty());
    }
    while i < members.len()
        invariant
            l == *acc.limits,
            acc.counters().2 == c_start.2 + spec_encode_list(children@).len(),
            forall|j: int| 0 <= j < children@.len() ==> spec_height(#[trigger] children@[j]) + d + 2 <= l.max_depth,
            c_start.2 == old(acc).counters().2 + 1 + spec_encode(tag).len() + spec_header_size(members@.len() as nat),
            spec_height(tag) == 0,
            acc.limits == old(acc).limits,
            spec_run(l, ctx, old(acc).counters(), spec_model_steps(TypeModel::Union(ms), d as int))
                == spec_run(l, ctx, c_start, spec_members_steps(ms, d + 2)),
            l.spec_valid(),
            d < l.max_depth + 1,
            i <= members@.len(),
            ms == spec_types_model(members@),
            ms.len() == members@.len(),
            forall|j: int| 0 <= j < members@.len() ==> #[trigger] ms[j] == spec_type_model(members@[j].kind),
            spec_run(l, ctx, c_start, spec_members_steps(ms, d + 2))
                == spec_run(l, ctx, acc.counters(), spec_members_steps(ms.skip(i as int), d + 2)),
            spec_members_records(children@, ms.take(i as int)),
        decreases members@.len() - i,
    {
        proof {
            assert(ms.skip(i as int).drop_first() =~= ms.skip(i + 1));
            assert(ms.skip(i as int)[0] == ms[i as int]);
            lemma_run_append(l, ctx, acc.counters(), spec_model_steps(ms[i as int], d + 2), spec_members_steps(ms.skip(i + 1), d + 2));
        }
        let child = build_type(acc, ctx, &members[i].kind, d + 2)?;
        let ghost before = children@;
        children.push(child);
        proof {
            lemma_list_push(before, child);
            assert(ms.take(i + 1).drop_last() =~= ms.take(i as int));
            assert(children@.drop_last() =~= before);
        }
        i = i + 1;
    }
    proof {
        assert(ms.skip(i as int) =~= Seq::<TypeModel>::empty());
        assert(ms.take(i as int) =~= ms);
        lemma_head_len(4, children@.len());
        if children@.len() > 0 {
            lemma_height_list_bound(children@, (l.max_depth - d - 2) as nat);
        }
    }
    Ok(pair(tag, Value::Array(children)))
}

/// Builds an enum constructor: its header, then each member text in stored order.
#[verifier::rlimit(40)]
fn build_enum(acc: &mut RecordAccounting, ctx: TypeContext, members: &Vec<String>, d: usize) -> (res: Result<Value, TypeError>)
    requires
        old(acc).limits.spec_valid(),
    ensures
        final(acc).limits == old(acc).limits,
        match spec_run(*old(acc).limits, ctx, old(acc).counters(),
            spec_model_steps(TypeModel::Enum(members@.map_values(|s: String| s@)), d as int)) {
            Ok(c) => res matches Ok(v) && final(acc).counters() == c
                && spec_model_record(v, TypeModel::Enum(members@.map_values(|s: String| s@)))
                && spec_sized(old(acc).counters(), c, v, d as int, *old(acc).limits),
            Err(e) => res == Err::<Value, TypeError>(e),
        },
{
    let ghost l = *acc.limits;
    let ghost ms = members@.map_values(|s: String| s@);
    proof {
        assert(spec_model_steps(TypeModel::Enum(ms), d as int) =~= spec_tagged_steps("enum"@, 2, d as int)
            + (seq![spec_collection_step(ms.len() as int, d + 1)] + spec_texts_steps(ms, d + 2)));
        lemma_run_append(l, ctx, acc.counters(), spec_tagged_steps("enum"@, 2, d as int),
            seq![spec_collection_step(ms.len() as int, d + 1)] + spec_texts_steps(ms, d + 2));
    }
    let tag = tagged(acc, ctx, "enum", 2, d)?;
    proof {
        lemma_run_cons(l, ctx, acc.counters(), spec_collection_step(ms.len() as int, d + 1), spec_texts_steps(ms, d + 2));
    }
    charge(acc, ctx, Charge::Collection { len: members.len(), depth: d + 1 })?;
    let ghost c_start = acc.counters();
    let mut children: Vec<Value> = Vec::new();
    let mut i: usize = 0;
    proof {
        assert(ms.skip(0) =~= ms);
    }
    while i < members.len()
        invariant
            l == *acc.limits,
            acc.counters().2 == c_start.2 + spec_encode_list(children@).len(),
            forall|j: int| 0 <= j < children@.len() ==> spec_height(#[trigger] children@[j]) + d + 2 <= l.max_depth,
            c_start.2 == old(acc).counters().2 + 1 + spec_encode(tag).len() + spec_header_size(members@.len() as nat),
            spec_height(tag) == 0,
            acc.limits == old(acc).limits,
            spec_run(l, ctx, old(acc).counters(), spec_model_steps(TypeModel::Enum(ms), d as int))
                == spec_run(l, ctx, c_start, spec_texts_steps(ms, d + 2)),
            l.spec_valid(),
            d < l.max_depth + 1,
            i <= members@.len(),
            ms == members@.map_values(|s: String| s@),
            spec_run(l, ctx, c_start, spec_texts_steps(ms, d + 2))
                == spec_run(l, ctx, acc.counters(), spec_texts_steps(ms.skip(i as int), d + 2)),
            children@.len() == i,
            forall|j: int| 0 <= j < i ==> spec_is_text(#[trigger] children@[j], ms[j]),
        decreases members@.len() - i,
    {
        proof {
            assert(ms.skip(i as int).drop_first() =~= ms.skip(i + 1));
            assert(ms.skip(i as int)[0] == members@[i as int]@);
            lemma_run_cons(l, ctx, acc.counters(), spec_text_step(members@[i as int]@, d + 2), spec_texts_steps(ms.skip(i + 1), d + 2));
        }
        let child = text_value(acc, ctx, members[i].as_str(), d + 2)?;
        let ghost before = children@;
        children.push(child);
        proof {
            lemma_list_push(before, child);
        }
        i = i + 1;
    }
    proof {
        assert(ms.skip(i as int) =~= Seq::<Seq<char>>::empty());
        lemma_head_len(4, children@.len());
        if children@.len() > 0 {
            lemma_height_list_bound(children@, (l.max_depth - d - 2) as nat);
        }
    }
    Ok(pair(tag, Value::Array(children)))
}

/// Builds a schema constructor with the digest text.
fn build_schema(acc: &mut RecordAccounting, ctx: TypeContext, digest: &crate::digest::Digest, d: usize) -> (res: Result<Value, TypeError>)
    requires
        old(acc).limits.spec_valid(),
    ensures
        final(acc).limits == old(acc).limits,
        match spec_run(*old(acc).limits, ctx, old(acc).counters(), spec_model_steps(TypeModel::Schema(digest@), d as int)) {
            Ok(c) => res matches Ok(v) && final(acc).counters() == c && spec_model_record(v, TypeModel::Schema(digest@))
                && spec_sized(old(acc).counters(), c, v, d as int, *old(acc).limits),
            Err(e) => res == Err::<Value, TypeError>(e),
        },
{
    let ghost l = *acc.limits;
    let text = digest.to_text();
    proof { lemma_run_append(l, ctx, acc.counters(), spec_tagged_steps("schema"@, 2, d as int), seq![spec_text_step(text@, d + 1)]); }
    let tag = tagged(acc, ctx, "schema", 2, d)?;
    proof { lemma_run_single(l, ctx, acc.counters(), spec_text_step(text@, d + 1)); }
    let child = text_value(acc, ctx, text.as_str(), d + 1)?;
    Ok(pair(tag, child))
}

/// Builds a signature variable constructor; refused in value context.
fn build_var(acc: &mut RecordAccounting, ctx: TypeContext, name: &crate::identifier::Identifier, d: usize) -> (res: Result<Value, TypeError>)
    requires
        old(acc).limits.spec_valid(),
    ensures
        final(acc).limits == old(acc).limits,
        match spec_run(*old(acc).limits, ctx, old(acc).counters(), spec_model_steps(TypeModel::Var(name@), d as int)) {
            Ok(c) => res matches Ok(v) && final(acc).counters() == c && spec_model_record(v, TypeModel::Var(name@))
                && spec_sized(old(acc).counters(), c, v, d as int, *old(acc).limits),
            Err(e) => res == Err::<Value, TypeError>(e),
        },
{
    let ghost l = *acc.limits;
    let ghost c0 = acc.counters();
    let ghost rest = spec_tagged_steps("var"@, 2, d as int) + seq![spec_text_step(name@, d + 1)];
    proof {
        assert(spec_model_steps(TypeModel::Var(name@), d as int) =~= seq![Step::Signature("var")] + rest);
        lemma_run_cons(l, ctx, c0, Step::Signature("var"), rest);
        lemma_run_append(l, ctx, c0, spec_tagged_steps("var"@, 2, d as int), seq![spec_text_step(name@, d + 1)]);
    }
    signature(ctx, "var")?;
    let tag = tagged(acc, ctx, "var", 2, d)?;
    proof { lemma_run_single(l, ctx, acc.counters(), spec_text_step(name@, d + 1)); }
    let child = text_value(acc, ctx, name.as_str(), d + 1)?;
    Ok(pair(tag, child))
}

/// Builds the parameter array of a function constructor at depth `d`: its
/// header, then each port in order.
#[verifier::rlimit(40)]
fn build_ports(acc: &mut RecordAccounting, ctx: TypeContext, parameters: &Vec<Port>, d: usize) -> (res: Result<Value, TypeError>)
    requires
        old(acc).limits.spec_valid(),
        d <= old(acc).limits.max_depth + 1,
    ensures
        final(acc).limits == old(acc).limits,
        match spec_run(*old(acc).limits, ctx, old(acc).counters(), seq![spec_collection_step(parameters@.len() as int, d as int)]
            + spec_ports_steps(spec_ports_model(parameters@), d + 1)) {
            Ok(c) => res matches Ok(v) && final(acc).counters() == c
                && (v matches Value::Array(a) && spec_ports_records(a@, spec_ports_model(parameters@)))
                && spec_sized(old(acc).counters(), c, v, d as int, *old(acc).limits),
            Err(e) => res == Err::<Value, TypeError>(e),
        },
    decreases parameters, 0nat,
{
    let ghost l = *acc.limits;
    let ghost ps = spec_ports_model(parameters@);
    proof {
        lemma_ports_model(parameters@);
        lemma_run_cons(l, ctx, acc.counters(), spec_collection_step(ps.len() as int, d as int), spec_ports_steps(ps, d + 1));
    }
    charge(acc, ctx, Charge::Collection { len: parameters.len(), depth: d })?;
    let ghost c_start = acc.counters();
    let mut params: Vec<Value> = Vec::new();
    let mut i: usize = 0;
    proof {
        assert(ps.skip(0) =~= ps);
        assert(ps.take(0) =~= Seq::<PortModel>::empty());
    }
    while i < parameters.len()
        invariant
            l == *acc.limits,
            acc.counters().2 == c_start.2 + spec_encode_list(params@).len(),
            forall|j: int| 0 <= j < params@.len() ==> spec_height(#[trigger] params@[j]) + d + 1 <= l.max_depth,
            c_start.2 == old(acc).counters().2 + spec_header_size(parameters@.len() as nat),
            acc.limits == old(acc).limits,
            l.spec_valid(),
            d < l.max_depth + 1,
            i <= parameters@.len(),
            ps == spec_ports_model(parameters@),
            ps.len() == parameters@.len(),
            forall|j: int| 0 <= j < parameters@.len() ==> #[trigger] ps[j] == spec_port_model(parameters@[j]),
            spec_run(l, ctx, old(acc).counters(), seq![spec_collection_step(ps.len() as int, d as int)] + spec_ports_steps(ps, d + 1))
                == spec_run(l, ctx, c_start, spec_ports_steps(ps, d + 1)),
            spec_run(l, ctx, c_start, spec_ports_steps(ps, d + 1))
                == spec_run(l, ctx, acc.counters(), spec_ports_steps(ps.skip(i as int), d + 1)),
            spec_ports_records(params@, ps.take(i as int)),
        decreases parameters@.len() - i,
    {
        proof {
            assert(ps.skip(i as int).drop_first() =~= ps.skip(i + 1));
            assert(ps.skip(i as int)[0] == ps[i as int]);
            lemma_run_append(l, ctx, acc.counters(), spec_port_steps(ps[i as int], d + 1), spec_ports_steps(ps.skip(i + 1), d + 1));
        }
        let port = build_port(acc, ctx, &parameters[i], d + 1)?;
        let ghost before = params@;
        params.push(port);
        proof {
            lemma_list_push(before, port);
            assert(ps.take(i + 1).drop_last() =~= ps.take(i as int));
            assert(params@.drop_last() =~= before);
        }
        i = i + 1;
    }
    proof {
        assert(ps.skip(i as int) =~= Seq::<PortModel>::empty());
        assert(ps.take(i as int) =~= ps);
        lemma_head_len(4, params@.len());
        if params@.len() > 0 {
            lemma_height_list_bound(params@, (l.max_depth - d - 1) as nat);
        }
    }
    Ok(Value::Array(params))
}

} // verus!
