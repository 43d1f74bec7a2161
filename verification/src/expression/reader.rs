//! Reading canonical expression records, repairing authored structure only
//! when normalizing.

use vstd::prelude::*;
use vstd::string::*;

use super::model::{
    lemma_eargs_model, lemma_efields_model, lemma_exprs_model, spec_eargs_model, spec_efields_model, spec_expr_model,
    spec_exprs_model,
    spec_fn_model, spec_kind_model, spec_outcome_check, spec_path_model, spec_ref_check, spec_ref_model,
    spec_scalar_model, ExprModel, FnModel, RefModel, ScalarModel, StepModel,
};
use super::{
    spec_operator_tag, BinaryOperator, CoreFunction, Expression, ExpressionContext, ExpressionError, ExpressionKind,
    FunctionId, PathStep, ScalarLiteral, ValueReference,
};
use crate::cbor::value::{spec_utf8, Value};
use crate::identifier::{spec_identifier_error, Identifier};
use crate::metadata::{lemma_named_sorted_unique, spec_named_sorted};
use crate::text::same_text;

verus! {

/// Reading a text at a fixed schema site.
pub open spec fn spec_read_text(v: Value, site: &'static str) -> Result<Seq<char>, ExpressionError> {
    match v {
        Value::Text(s) => Ok(s@),
        _ => Err(ExpressionError::InvalidShape(site)),
    }
}

/// Reading an identifier.
pub open spec fn spec_read_name(v: Value) -> Result<Seq<char>, ExpressionError> {
    match spec_read_text(v, "identifier") {
        Err(e) => Err(e),
        Ok(t) => match spec_identifier_error(spec_utf8(t)) {
            None => Ok(t),
            Some(e) => Err(ExpressionError::Identifier(e)),
        },
    }
}

/// Reading a digest.
pub open spec fn spec_read_digest(v: Value) -> Result<Seq<u8>, ExpressionError> {
    match spec_read_text(v, "digest") {
        Err(e) => Err(e),
        Ok(t) => match crate::digest::spec_parse_digest(spec_utf8(t)) {
            Ok(b) => Ok(b),
            Err(e) => Err(ExpressionError::Digest(e)),
        },
    }
}

/// Reading a scalar literal.
pub open spec fn spec_read_scalar(v: Value) -> Result<ScalarModel, ExpressionError> {
    match v {
        Value::Text(s) => Ok(ScalarModel::String(s@)),
        Value::Integer(n) => Ok(ScalarModel::Integer(n)),
        Value::Float(f) => Ok(ScalarModel::Float(f.bits)),
        Value::Bool(b) => Ok(ScalarModel::Boolean(b)),
        Value::Null => Ok(ScalarModel::Null),
        Value::Bytes(b) => Ok(ScalarModel::Bytes(b@)),
        _ => Err(ExpressionError::InvalidShape("scalar literal")),
    }
}

/// Reading path steps in order: field texts and nonnegative indexes.
pub open spec fn spec_read_steps(items: Seq<Value>) -> Result<Seq<StepModel>, ExpressionError>
    decreases items.len(),
{
    if items.len() == 0 {
        Ok(Seq::empty())
    } else {
        match spec_read_steps(items.drop_last()) {
            Err(e) => Err(e),
            Ok(ps) => match items.last() {
                Value::Text(s) => Ok(ps.push(StepModel::Field(s@))),
                Value::Integer(n) => if n < 0 {
                    Err(ExpressionError::InvalidIndex)
                } else {
                    Ok(ps.push(StepModel::Index(n as u64)))
                },
                _ => Err(ExpressionError::InvalidShape("path step")),
            },
        }
    }
}

/// Reading a path.
pub open spec fn spec_read_path(v: Value) -> Result<Seq<StepModel>, ExpressionError> {
    match v {
        Value::Array(a) => spec_read_steps(a@),
        _ => Err(ExpressionError::InvalidShape("path")),
    }
}

/// Reading a value reference and checking its category in context `c`.
pub open spec fn spec_read_ref(v: Value, c: ExpressionContext) -> Result<RefModel, ExpressionError> {
    match v {
        Value::Array(a) => if a@.len() == 0 {
            Err(ExpressionError::InvalidShape("value reference"))
        } else {
            match spec_read_text(a@[0], "reference tag") {
                Err(e) => Err(e),
                Ok(tag) => if a@.len() != (if tag == "output"@ { 3int } else { 2int }) {
                    Err(ExpressionError::InvalidShape("constructor arity"))
                } else {
                    let r = if tag == "input"@ {
                        match spec_read_name(a@[1]) { Ok(n) => Ok(RefModel::Input(n)), Err(e) => Err(e) }
                    } else if tag == "scope_output"@ {
                        match spec_read_name(a@[1]) { Ok(n) => Ok(RefModel::ScopeOutput(n)), Err(e) => Err(e) }
                    } else if tag == "carried"@ {
                        match spec_read_name(a@[1]) { Ok(n) => Ok(RefModel::Carried(n)), Err(e) => Err(e) }
                    } else if tag == "next"@ {
                        match spec_read_name(a@[1]) { Ok(n) => Ok(RefModel::Next(n)), Err(e) => Err(e) }
                    } else if tag == "output"@ {
                        match spec_read_name(a@[1]) {
                            Err(e) => Err(e),
                            Ok(node) => match spec_read_name(a@[2]) {
                                Ok(port) => Ok(RefModel::Output(node, port)),
                                Err(e) => Err(e),
                            },
                        }
                    } else {
                        Err(ExpressionError::InvalidShape("reference tag"))
                    };
                    match r {
                        Err(e) => Err(e),
                        Ok(m) => match spec_ref_check(m, c) {
                            Some(e) => Err(e),
                            None => Ok(m),
                        },
                    }
                },
            }
        },
        _ => Err(ExpressionError::InvalidShape("value reference")),
    }
}

/// Reading a function identity.
pub open spec fn spec_read_fn(v: Value) -> Result<FnModel, ExpressionError> {
    match v {
        Value::Array(a) => if a@.len() == 0 {
            Err(ExpressionError::UnknownFunction)
        } else {
            match spec_read_text(a@[0], "function tag") {
                Err(e) => Err(e),
                Ok(tag) => if tag == "core"@ {
                    if a@.len() != 2 {
                        Err(ExpressionError::InvalidShape("constructor arity"))
                    } else {
                        match spec_read_text(a@[1], "core function") {
                            Err(e) => Err(e),
                            Ok(t) => if t == "length"@ {
                                Ok(FnModel::Core(CoreFunction::Length))
                            } else if t == "present"@ {
                                Ok(FnModel::Core(CoreFunction::Present))
                            } else {
                                Err(ExpressionError::UnknownFunction)
                            },
                        }
                    }
                } else if tag == "library"@ {
                    if a@.len() != 3 {
                        Err(ExpressionError::InvalidShape("constructor arity"))
                    } else {
                        match spec_read_digest(a@[1]) {
                            Err(e) => Err(e),
                            Ok(b) => match spec_read_name(a@[2]) {
                                Ok(n) => Ok(FnModel::Library(b, n)),
                                Err(e) => Err(e),
                            },
                        }
                    }
                } else {
                    Err(ExpressionError::UnknownFunction)
                },
            }
        },
        _ => Err(ExpressionError::InvalidShape("function id")),
    }
}

/// The flag bit of a regex flag byte, if it is one.
pub open spec fn spec_flag_bit(b: u8) -> Option<u8> {
    if b == 0x69 { Some(1) } else if b == 0x6d { Some(2) } else if b == 0x73 { Some(4) } else { None }
}

/// Whether the flag bytes are known flags, each at most once, from a mask.
pub open spec fn spec_flags_mask(bs: Seq<u8>) -> Option<u8>
    decreases bs.len(),
{
    if bs.len() == 0 {
        Some(0)
    } else {
        match spec_flags_mask(bs.drop_last()) {
            None => None,
            Some(m) => match spec_flag_bit(bs.last()) {
                None => None,
                Some(b) => if m & b != 0 { None } else { Some(m | b) },
            },
        }
    }
}

/// The canonical flag spelling of a mask: `ims` order.
pub open spec fn spec_canonical_flags(m: u8) -> Seq<char> {
    if m == 0 { ""@ } else if m == 1 { "i"@ } else if m == 2 { "m"@ } else if m == 3 { "im"@ }
    else if m == 4 { "s"@ } else if m == 5 { "is"@ } else if m == 6 { "ms"@ } else { "ims"@ }
}

/// Reading regex flags: known and unrepeated, in `ims` order unless normalizing.
pub open spec fn spec_read_flags(f: Seq<char>, normalize: bool) -> Result<Seq<char>, ExpressionError> {
    match spec_flags_mask(spec_utf8(f)) {
        None => Err(ExpressionError::InvalidRegexFlags),
        Some(m) => if !normalize && f != spec_canonical_flags(m) {
            Err(ExpressionError::NonCanonical("regex flag order"))
        } else {
            Ok(spec_canonical_flags(m))
        },
    }
}

/// The number of array elements of a known constructor tag.
pub open spec fn spec_expr_arity(tag: Seq<char>) -> Option<int> {
    if tag == "literal"@ || tag == "list"@ || tag == "record"@ || tag == "status"@ || tag == "error"@ || tag == "not"@ {
        Some(2)
    } else if tag == "regex"@ || tag == "ref"@ || tag == "get"@ || tag == "call"@ || tag == "function_ref"@ || tag == "render"@ {
        Some(3)
    } else if exists|op: BinaryOperator| spec_operator_tag(op) == tag {
        Some(3)
    } else {
        None
    }
}

/// The operator of a binary tag.
pub open spec fn spec_operator_of(tag: Seq<char>) -> BinaryOperator {
    choose|op: BinaryOperator| spec_operator_tag(op) == tag
}

/// The first adjacent pair of record field names out of strict UTF-8 order,
/// as the failure it reports.
pub open spec fn spec_field_order(fs: Seq<(Seq<char>, ExprModel)>, i: int) -> Option<ExpressionError>
    decreases fs.len() - i,
{
    if i < 0 || i + 1 >= fs.len() {
        None
    } else if fs[i].0 == fs[i + 1].0 {
        Some(ExpressionError::DuplicateField)
    } else if crate::cbor::value::spec_lex_lt(spec_utf8(fs[i + 1].0), spec_utf8(fs[i].0)) {
        Some(ExpressionError::NonCanonical("record field UTF-8 order"))
    } else {
        spec_field_order(fs, i + 1)
    }
}

/// Named items in name order.
pub open spec fn spec_sort_named(s: Seq<(Seq<char>, ExprModel)>) -> Seq<(Seq<char>, ExprModel)> {
    choose|r: Seq<(Seq<char>, ExprModel)>| spec_named_sorted(r) && r.to_multiset() == s.to_multiset()
}

/// The names of named items.
pub open spec fn spec_item_names(s: Seq<(Seq<char>, ExprModel)>) -> Seq<Seq<char>> {
    s.map_values(|x: (Seq<char>, ExprModel)| x.0)
}

/// Reading record fields, as read in stored order: normalizing puts them in
/// name order and refuses repeats; canonical reading refuses repeats and
/// disorder.
pub open spec fn spec_order_fields(fs: Seq<(Seq<char>, ExprModel)>, normalize: bool) -> Result<Seq<(Seq<char>, ExprModel)>, ExpressionError> {
    if normalize {
        if crate::types::model::spec_names_distinct(spec_item_names(fs)) {
            Ok(spec_sort_named(fs))
        } else {
            Err(ExpressionError::DuplicateField)
        }
    } else {
        match spec_field_order(fs, 0) {
            Some(e) => Err(e),
            None => Ok(fs),
        }
    }
}

/// Putting render arguments in name order; repeated names are refused.
pub open spec fn spec_order_args(args: Seq<(Seq<char>, ExprModel)>) -> Result<Seq<(Seq<char>, ExprModel)>, ExpressionError> {
    if crate::types::model::spec_names_distinct(spec_item_names(args)) {
        Ok(spec_sort_named(args))
    } else {
        Err(ExpressionError::Codec(crate::cbor::error::spec_plain_error(crate::cbor::error::ErrorKind::DuplicateMapKey)))
    }
}

/// Folding a projection into its base: a reference or projection base
/// absorbs the path when normalizing, and is refused otherwise.
pub open spec fn spec_fold_get(base: ExprModel, path: Seq<StepModel>, normalize: bool) -> Result<ExprModel, ExpressionError> {
    match base {
        ExprModel::Ref(r, before) => if !normalize {
            Err(ExpressionError::NonCanonical("get on reference"))
        } else {
            Ok(ExprModel::Ref(r, before + path))
        },
        ExprModel::Get(x, before) => if !normalize {
            Err(ExpressionError::NonCanonical("nested get"))
        } else {
            Ok(ExprModel::Get(x, before + path))
        },
        _ => Ok(ExprModel::Get(Box::new(base), path)),
    }
}

/// Reading an expression record in context `c`.
pub open spec fn spec_read_expr(v: Value, c: ExpressionContext, normalize: bool) -> Result<ExprModel, ExpressionError>
    decreases v, 2nat,
{
    match v {
        Value::Array(a) => if a@.len() == 0 {
            Err(ExpressionError::InvalidShape("expression tag"))
        } else {
            match a@[0] {
                Value::Text(tag) => match spec_expr_arity(tag@) {
                    None => Err(ExpressionError::UnknownConstructor),
                    Some(n) => if a@.len() != n {
                        Err(ExpressionError::InvalidShape("constructor arity"))
                    } else {
                        spec_read_body(tag@, a@, c, normalize)
                    },
                },
                _ => Err(ExpressionError::InvalidShape("expression tag")),
            }
        },
        _ => Err(ExpressionError::InvalidShape("expression")),
    }
}

/// Reading the elements of an expression record with tag `tag`.
pub open spec fn spec_read_body(tag: Seq<char>, a: Seq<Value>, c: ExpressionContext, normalize: bool) -> Result<ExprModel, ExpressionError>
    decreases a, 1nat,
{
    if a.len() < 2 {
        Err(ExpressionError::InvalidShape("constructor arity"))
    } else if tag == "literal"@ {
        match spec_read_scalar(a[1]) { Ok(s) => Ok(ExprModel::Literal(s)), Err(e) => Err(e) }
    } else if tag == "status"@ || tag == "error"@ {
        match spec_outcome_check(c) {
            Some(e) => Err(e),
            None => match spec_read_name(a[1]) {
                Err(e) => Err(e),
                Ok(n) => if tag == "status"@ { Ok(ExprModel::Status(n)) } else { Ok(ExprModel::Error(n)) },
            },
        }
    } else if tag == "list"@ {
        spec_read_list_body(a[1], c, normalize)
    } else if tag == "record"@ {
        spec_read_record_body(a[1], c, normalize)
    } else if tag == "not"@ {
        match spec_read_expr(a[1], c, normalize) { Ok(x) => Ok(ExprModel::Not(Box::new(x))), Err(e) => Err(e) }
    } else if a.len() < 3 {
        Err(ExpressionError::InvalidShape("constructor arity"))
    } else if tag == "regex"@ {
        match spec_read_text(a[1], "regex pattern") {
            Err(e) => Err(e),
            Ok(p) => match spec_read_text(a[2], "regex flags") {
                Err(e) => Err(e),
                Ok(f) => match spec_read_flags(f, normalize) {
                    Ok(g) => Ok(ExprModel::Regex(p, g)),
                    Err(e) => Err(e),
                },
            },
        }
    } else if tag == "ref"@ {
        match spec_read_ref(a[1], c) {
            Err(e) => Err(e),
            Ok(r) => match spec_read_path(a[2]) { Ok(p) => Ok(ExprModel::Ref(r, p)), Err(e) => Err(e) },
        }
    } else if tag == "function_ref"@ {
        match spec_read_digest(a[1]) {
            Err(e) => Err(e),
            Ok(b) => match spec_read_name(a[2]) { Ok(n) => Ok(ExprModel::FunctionRef(b, n)), Err(e) => Err(e) },
        }
    } else if tag == "get"@ {
        spec_read_get_body(a, c, normalize)
    } else if tag == "call"@ {
        spec_read_call_body(a, c, normalize)
    } else if tag == "render"@ {
        spec_read_render_body(a, c, normalize)
    } else {
        spec_read_binary_body(tag, a, c, normalize)
    }
}

/// Reading a list's elements.
pub open spec fn spec_read_list_body(x: Value, c: ExpressionContext, normalize: bool) -> Result<ExprModel, ExpressionError>
    decreases x, 0nat,
{
    match x {
        Value::Array(items) => match spec_read_exprs(items@, c, normalize) {
            Ok(ms) => Ok(ExprModel::List(ms)),
            Err(e) => Err(e),
        },
        _ => Err(ExpressionError::InvalidShape("expression list")),
    }
}

/// Reading a record's fields, then ordering them.
pub open spec fn spec_read_record_body(x: Value, c: ExpressionContext, normalize: bool) -> Result<ExprModel, ExpressionError>
    decreases x, 0nat,
{
    match x {
        Value::Array(items) => match spec_read_efields(items@, c, normalize) {
            Err(e) => Err(e),
            Ok(fs) => match spec_order_fields(fs, normalize) {
                Ok(o) => Ok(ExprModel::Record(o)),
                Err(e) => Err(e),
            },
        },
        _ => Err(ExpressionError::InvalidShape("record expression fields")),
    }
}

/// Reading a projection: its base, then a nonempty path, folded.
pub open spec fn spec_read_get_body(a: Seq<Value>, c: ExpressionContext, normalize: bool) -> Result<ExprModel, ExpressionError>
    decreases a, 0nat,
{
    if a.len() < 3 {
        Err(ExpressionError::InvalidShape("constructor arity"))
    } else {
        match spec_read_expr(a[1], c, normalize) {
            Err(e) => Err(e),
            Ok(base) => match spec_read_path(a[2]) {
                Err(e) => Err(e),
                Ok(p) => if p.len() == 0 {
                    Err(ExpressionError::InvalidShape("nonempty get path"))
                } else {
                    spec_fold_get(base, p, normalize)
                },
            },
        }
    }
}

/// Reading a call: its identity, its arity when core, then its arguments.
pub open spec fn spec_read_call_body(a: Seq<Value>, c: ExpressionContext, normalize: bool) -> Result<ExprModel, ExpressionError>
    decreases a, 0nat,
{
    if a.len() < 3 {
        Err(ExpressionError::InvalidShape("constructor arity"))
    } else {
        match spec_read_fn(a[1]) {
            Err(e) => Err(e),
            Ok(f) => if f is Core && !(a[2] matches Value::Array(x) && x@.len() == 1) {
                if a[2] is Array {
                    Err(ExpressionError::InvalidShape("core function arity"))
                } else {
                    Err(ExpressionError::InvalidShape("call arguments"))
                }
            } else {
                match a[2] {
                    Value::Array(items) => match spec_read_exprs(items@, c, normalize) {
                        Ok(ms) => Ok(ExprModel::Call(f, ms)),
                        Err(e) => Err(e),
                    },
                    _ => Err(ExpressionError::InvalidShape("expression list")),
                }
            },
        }
    }
}

/// Reading a render: its template digest, then its named arguments in name order.
pub open spec fn spec_read_render_body(a: Seq<Value>, c: ExpressionContext, normalize: bool) -> Result<ExprModel, ExpressionError>
    decreases a, 0nat,
{
    if a.len() < 3 {
        Err(ExpressionError::InvalidShape("constructor arity"))
    } else {
        match spec_read_digest(a[1]) {
            Err(e) => Err(e),
            Ok(b) => match a[2] {
                Value::Object(m) => match spec_read_eargs(m.entries@, c, normalize) {
                    Err(e) => Err(e),
                    Ok(args) => match spec_order_args(args) {
                        Ok(o) => Ok(ExprModel::Render(b, o)),
                        Err(e) => Err(e),
                    },
                },
                _ => Err(ExpressionError::InvalidShape("render arguments")),
            },
        }
    }
}

/// Reading a binary operator's operands, left then right.
pub open spec fn spec_read_binary_body(tag: Seq<char>, a: Seq<Value>, c: ExpressionContext, normalize: bool) -> Result<ExprModel, ExpressionError>
    decreases a, 0nat,
{
    if a.len() < 3 {
        Err(ExpressionError::InvalidShape("constructor arity"))
    } else {
        match spec_read_expr(a[1], c, normalize) {
            Err(e) => Err(e),
            Ok(x) => match spec_read_expr(a[2], c, normalize) {
                Ok(y) => Ok(ExprModel::Binary(spec_operator_of(tag), Box::new(x), Box::new(y))),
                Err(e) => Err(e),
            },
        }
    }
}

/// Reading expressions in order; the first failure is reported.
pub open spec fn spec_read_exprs(items: Seq<Value>, c: ExpressionContext, normalize: bool) -> Result<Seq<ExprModel>, ExpressionError>
    decreases items, 0nat,
{
    if items.len() == 0 {
        Ok(Seq::empty())
    } else {
        match spec_read_exprs(items.drop_last(), c, normalize) {
            Err(e) => Err(e),
            Ok(ms) => match spec_read_expr(items.last(), c, normalize) {
                Ok(m) => Ok(ms.push(m)),
                Err(e) => Err(e),
            },
        }
    }
}

/// Reading record field pairs in stored order: each a `[key, expression]` array.
pub open spec fn spec_read_efields(items: Seq<Value>, c: ExpressionContext, normalize: bool)
    -> Result<Seq<(Seq<char>, ExprModel)>, ExpressionError>
    decreases items, 0nat,
{
    if items.len() == 0 {
        Ok(Seq::empty())
    } else {
        match spec_read_efields(items.drop_last(), c, normalize) {
            Err(e) => Err(e),
            Ok(fs) => match items.last() {
                Value::Array(p) => if p@.len() != 2 {
                    Err(ExpressionError::InvalidShape("constructor arity"))
                } else {
                    match spec_read_text(p@[0], "record key") {
                        Err(e) => Err(e),
                        Ok(k) => match spec_read_expr(p@[1], c, normalize) {
                            Ok(m) => Ok(fs.push((k, m))),
                            Err(e) => Err(e),
                        },
                    }
                },
                _ => Err(ExpressionError::InvalidShape("record expression pair")),
            },
        }
    }
}

/// Reading render arguments in stored order: identifier keys and expressions.
pub open spec fn spec_read_eargs(entries: Seq<(String, Value)>, c: ExpressionContext, normalize: bool)
    -> Result<Seq<(Seq<char>, ExprModel)>, ExpressionError>
    decreases entries, 0nat,
{
    if entries.len() == 0 {
        Ok(Seq::empty())
    } else {
        match spec_read_eargs(entries.drop_last(), c, normalize) {
            Err(e) => Err(e),
            Ok(args) => match spec_identifier_error(spec_utf8(entries.last().0@)) {
                Some(e) => Err(ExpressionError::Identifier(e)),
                None => match spec_read_expr(entries.last().1, c, normalize) {
                    Ok(m) => Ok(args.push((entries.last().0@, m))),
                    Err(e) => Err(e),
                },
            },
        }
    }
}

} // verus!

verus! {

/// Reads a text at a fixed schema site.
fn read_text<'a>(v: &'a Value, site: &'static str) -> (res: Result<&'a str, ExpressionError>)
    ensures
        match spec_read_text(*v, site) {
            Ok(t) => res matches Ok(s) && s@ == t,
            Err(e) => res == Err::<&str, ExpressionError>(e),
        },
{
    match v {
        Value::Text(s) => Ok(s.as_str()),
        _ => Err(ExpressionError::InvalidShape(site)),
    }
}

/// Reads an identifier.
fn read_name(v: &Value) -> (res: Result<Identifier, ExpressionError>)
    ensures
        match spec_read_name(*v) {
            Ok(t) => res matches Ok(id) && id@ == t,
            Err(e) => res == Err::<Identifier, ExpressionError>(e),
        },
{
    let t = read_text(v, "identifier")?;
    proof { crate::identifier::lemma_identifier_error_iff(spec_utf8(t@)); }
    match Identifier::parse(t) {
        Ok(id) => Ok(id),
        Err(e) => Err(ExpressionError::Identifier(e)),
    }
}

/// Reads a digest.
fn read_digest(v: &Value) -> (res: Result<crate::digest::Digest, ExpressionError>)
    ensures
        match spec_read_digest(*v) {
            Ok(b) => res matches Ok(d) && d@ == b,
            Err(e) => res == Err::<crate::digest::Digest, ExpressionError>(e),
        },
{
    let t = read_text(v, "digest")?;
    match crate::digest::Digest::parse(t) {
        Ok(d) => Ok(d),
        Err(e) => Err(ExpressionError::Digest(e)),
    }
}

/// Reads a scalar literal.
fn read_scalar(v: &Value) -> (res: Result<ScalarLiteral, ExpressionError>)
    ensures
        match spec_read_scalar(*v) {
            Ok(s) => res matches Ok(r) && spec_scalar_model(r) == s,
            Err(e) => res == Err::<ScalarLiteral, ExpressionError>(e),
        },
{
    match v {
        Value::Text(s) => Ok(ScalarLiteral::String(String::from_str(s.as_str()))),
        Value::Integer(n) => Ok(ScalarLiteral::Integer(*n)),
        Value::Float(f) => Ok(ScalarLiteral::Float(*f)),
        Value::Bool(b) => Ok(ScalarLiteral::Boolean(*b)),
        Value::Null => Ok(ScalarLiteral::Null),
        Value::Bytes(b) => {
            let mut copy: Vec<u8> = Vec::new();
            let mut i: usize = 0;
            while i < b.len()
                invariant
                    i <= b@.len(),
                    copy@ == b@.take(i as int),
                decreases b@.len() - i,
            {
                copy.push(b[i]);
                proof { assert(b@.take(i + 1) =~= b@.take(i as int).push(b@[i as int])); }
                i = i + 1;
            }
            proof { assert(b@.take(b@.len() as int) =~= b@); }
            Ok(ScalarLiteral::Bytes(copy))
        },
        _ => Err(ExpressionError::InvalidShape("scalar literal")),
    }
}

/// A failed prefix of path steps fails every longer prefix alike.
proof fn lemma_steps_err_extends(items: Seq<Value>, i: int, j: int)
    requires
        0 <= i <= j <= items.len(),
        spec_read_steps(items.take(i)) is Err,
    ensures
        spec_read_steps(items.take(j)) == spec_read_steps(items.take(i)),
    decreases j - i,
{
    if i < j {
        lemma_steps_err_extends(items, i, j - 1);
        assert(items.take(j).drop_last() =~= items.take(j - 1));
    }
}

/// Reads a path.
fn read_path(v: &Value) -> (res: Result<Vec<PathStep>, ExpressionError>)
    ensures
        match spec_read_path(*v) {
            Ok(p) => res matches Ok(r) && spec_path_model(r@) == p,
            Err(e) => res == Err::<Vec<PathStep>, ExpressionError>(e),
        },
{
    let items = match v {
        Value::Array(a) => a,
        _ => return Err(ExpressionError::InvalidShape("path")),
    };
    let mut out: Vec<PathStep> = Vec::new();
    let mut i: usize = 0;
    proof {
        assert(items@.take(0) =~= Seq::<Value>::empty());
        assert(spec_path_model(out@) =~= Seq::<StepModel>::empty());
    }
    while i < items.len()
        invariant
            *v == Value::Array(*items),
            i <= items@.len(),
            spec_read_steps(items@.take(i as int)) == Ok::<Seq<StepModel>, ExpressionError>(spec_path_model(out@)),
        decreases items@.len() - i,
    {
        proof {
            assert(items@.take(i + 1).drop_last() =~= items@.take(i as int));
            assert(items@.take(i + 1).last() == items@[i as int]);
        }
        let step = match &items[i] {
            Value::Text(s) => PathStep::Field(String::from_str(s.as_str())),
            Value::Integer(n) => {
                if *n < 0 {
                    proof {
                        lemma_steps_err_extends(items@, i + 1, items@.len() as int);
                        assert(items@.take(items@.len() as int) =~= items@);
                    }
                    return Err(ExpressionError::InvalidIndex);
                }
                PathStep::Index(*n as u64)
            },
            _ => {
                proof {
                    lemma_steps_err_extends(items@, i + 1, items@.len() as int);
                    assert(items@.take(items@.len() as int) =~= items@);
                }
                return Err(ExpressionError::InvalidShape("path step"));
            },
        };
        let ghost before = out@;
        out.push(step);
        proof { assert(spec_path_model(out@) =~= spec_path_model(before).push(spec_path_model(seq![step])[0])); }
        i = i + 1;
    }
    proof { assert(items@.take(items@.len() as int) =~= items@); }
    Ok(out)
}

/// Reads a value reference and checks its category in context `c`.
fn read_ref(v: &Value, c: ExpressionContext) -> (res: Result<ValueReference, ExpressionError>)
    ensures
        match spec_read_ref(*v, c) {
            Ok(r) => res matches Ok(x) && spec_ref_model(x) == r,
            Err(e) => res == Err::<ValueReference, ExpressionError>(e),
        },
{
    let a = match v {
        Value::Array(a) => a,
        _ => return Err(ExpressionError::InvalidShape("value reference")),
    };
    if a.len() == 0 {
        return Err(ExpressionError::InvalidShape("value reference"));
    }
    let tag = read_text(&a[0], "reference tag")?;
    let is_output = same_text(tag, "output");
    let n: usize = if is_output { 3 } else { 2 };
    if a.len() != n {
        return Err(ExpressionError::InvalidShape("constructor arity"));
    }
    let r = if same_text(tag, "input") {
        ValueReference::Input(read_name(&a[1])?)
    } else if same_text(tag, "scope_output") {
        ValueReference::ScopeOutput(read_name(&a[1])?)
    } else if same_text(tag, "carried") {
        ValueReference::Carried(read_name(&a[1])?)
    } else if same_text(tag, "next") {
        ValueReference::Next(read_name(&a[1])?)
    } else if is_output {
        let node = read_name(&a[1])?;
        let port = read_name(&a[2])?;
        ValueReference::Output { node, port }
    } else {
        return Err(ExpressionError::InvalidShape("reference tag"));
    };
    match super::builder::ref_check(&r, c) {
        Some(e) => Err(e),
        None => Ok(r),
    }
}

/// Reads a function identity.
fn read_fn(v: &Value) -> (res: Result<FunctionId, ExpressionError>)
    ensures
        match spec_read_fn(*v) {
            Ok(f) => res matches Ok(x) && spec_fn_model(x) == f,
            Err(e) => res == Err::<FunctionId, ExpressionError>(e),
        },
{
    let a = match v {
        Value::Array(a) => a,
        _ => return Err(ExpressionError::InvalidShape("function id")),
    };
    if a.len() == 0 {
        return Err(ExpressionError::UnknownFunction);
    }
    let tag = read_text(&a[0], "function tag")?;
    if same_text(tag, "core") {
        if a.len() != 2 {
            return Err(ExpressionError::InvalidShape("constructor arity"));
        }
        let t = read_text(&a[1], "core function")?;
        if same_text(t, "length") {
            Ok(FunctionId::Core(CoreFunction::Length))
        } else if same_text(t, "present") {
            Ok(FunctionId::Core(CoreFunction::Present))
        } else {
            Err(ExpressionError::UnknownFunction)
        }
    } else if same_text(tag, "library") {
        if a.len() != 3 {
            return Err(ExpressionError::InvalidShape("constructor arity"));
        }
        let library = read_digest(&a[1])?;
        let name = read_name(&a[2])?;
        Ok(FunctionId::Library { library, name })
    } else {
        Err(ExpressionError::UnknownFunction)
    }
}

} // verus!


verus! {

/// A failed flag prefix fails every longer prefix.
proof fn lemma_flags_none_extends(bs: Seq<u8>, i: int, j: int)
    requires
        0 <= i <= j <= bs.len(),
        spec_flags_mask(bs.take(i)) is None,
    ensures
        spec_flags_mask(bs.take(j)) is None,
    decreases j - i,
{
    if i < j {
        lemma_flags_none_extends(bs, i, j - 1);
        assert(bs.take(j).drop_last() =~= bs.take(j - 1));
    }
}

/// Reads regex flags: known and unrepeated, in `ims` order unless normalizing.
fn read_flags(f: &str, normalize: bool) -> (res: Result<String, ExpressionError>)
    ensures
        match spec_read_flags(f@, normalize) {
            Ok(g) => res matches Ok(s) && s@ == g,
            Err(e) => res == Err::<String, ExpressionError>(e),
        },
{
    let bs = f.as_bytes();
    let mut mask: u8 = 0;
    let mut i: usize = 0;
    proof { assert(bs@.take(0) =~= Seq::<u8>::empty()); }
    while i < bs.len()
        invariant
            bs@ == spec_utf8(f@),
            i <= bs@.len(),
            spec_flags_mask(bs@.take(i as int)) == Some(mask),
        decreases bs@.len() - i,
    {
        proof {
            assert(bs@.take(i + 1).drop_last() =~= bs@.take(i as int));
            assert(bs@.take(i + 1).last() == bs@[i as int]);
        }
        let b = bs[i];
        let bit: u8 = if b == 0x69 {
            1
        } else if b == 0x6d {
            2
        } else if b == 0x73 {
            4
        } else {
            proof {
                lemma_flags_none_extends(bs@, i + 1, bs@.len() as int);
                assert(bs@.take(bs@.len() as int) =~= bs@);
            }
            return Err(ExpressionError::InvalidRegexFlags);
        };
        if mask & bit != 0 {
            proof {
                lemma_flags_none_extends(bs@, i + 1, bs@.len() as int);
                assert(bs@.take(bs@.len() as int) =~= bs@);
            }
            return Err(ExpressionError::InvalidRegexFlags);
        }
        mask = mask | bit;
        i = i + 1;
    }
    proof { assert(bs@.take(bs@.len() as int) =~= bs@); }
    let canonical = if mask == 0 {
        ""
    } else if mask == 1 {
        "i"
    } else if mask == 2 {
        "m"
    } else if mask == 3 {
        "im"
    } else if mask == 4 {
        "s"
    } else if mask == 5 {
        "is"
    } else if mask == 6 {
        "ms"
    } else {
        "ims"
    };
    if !normalize && !same_text(f, canonical) {
        return Err(ExpressionError::NonCanonical("regex flag order"));
    }
    Ok(String::from_str(canonical))
}

/// The number of elements of an expression record with a known tag.
fn expr_arity(tag: &str) -> (res: Option<usize>)
    ensures
        match spec_expr_arity(tag@) {
            Some(n) => res == Some(n as usize),
            None => res is None,
        },
{
    if same_text(tag, "literal") || same_text(tag, "list") || same_text(tag, "record") || same_text(tag, "status")
        || same_text(tag, "error") || same_text(tag, "not") {
        Some(2)
    } else if same_text(tag, "regex") || same_text(tag, "ref") || same_text(tag, "get") || same_text(tag, "call")
        || same_text(tag, "function_ref") || same_text(tag, "render") {
        Some(3)
    } else {
        match BinaryOperator::parse(tag) {
            Some(_) => Some(3),
            None => None,
        }
    }
}

} // verus!

verus! {

/// Wraps an expression shape.
fn wrap(kind: ExpressionKind) -> (res: Expression)
    ensures
        *res.kind == kind,
{
    Expression { kind: Box::new(kind) }
}

/// Whether the texts are pairwise distinct.
fn texts_distinct(names: &Vec<&str>) -> (res: bool)
    ensures
        res == crate::types::model::spec_names_distinct(names@.map_values(|s: &str| s@)),
{
    let ghost ns = names@.map_values(|s: &str| s@);
    let mut a: usize = 0;
    while a < names.len()
        invariant
            ns == names@.map_values(|s: &str| s@),
            a <= names@.len(),
            forall|x: int, y: int| 0 <= x < y < names@.len() && x < a ==> spec_utf8(#[trigger] ns[x]) != spec_utf8(#[trigger] ns[y]),
        decreases names@.len() - a,
    {
        let mut b: usize = a + 1;
        while b < names.len()
            invariant
                ns == names@.map_values(|s: &str| s@),
                a < b <= names@.len(),
                forall|x: int, y: int| 0 <= x < y < names@.len() && x < a ==> spec_utf8(#[trigger] ns[x]) != spec_utf8(#[trigger] ns[y]),
                forall|y: int| a < y < b ==> spec_utf8(ns[a as int]) != spec_utf8(#[trigger] ns[y]),
            decreases names@.len() - b,
        {
            assert(ns[a as int] == names@[a as int]@);
            assert(ns[b as int] == names@[b as int]@);
            if same_text(names[a], names[b]) {
                return false;
            }
            proof {
                if spec_utf8(ns[a as int]) == spec_utf8(ns[b as int]) {
                    crate::types::model::lemma_utf8_injective(ns[a as int], ns[b as int]);
                }
            }
            b = b + 1;
        }
        a = a + 1;
    }
    true
}

/// Whether record field names are pairwise distinct.
fn efield_names_distinct(fields: &Vec<(String, Expression)>) -> (res: bool)
    ensures
        res == crate::types::model::spec_names_distinct(spec_item_names(spec_efields_model(fields@))),
{
    let mut names: Vec<&str> = Vec::new();
    let mut i: usize = 0;
    while i < fields.len()
        invariant
            i <= fields@.len(),
            names@.len() == i,
            forall|k: int| 0 <= k < i ==> (#[trigger] names@[k])@ == fields@[k].0@,
        decreases fields@.len() - i,
    {
        names.push(fields[i].0.as_str());
        i = i + 1;
    }
    proof {
        lemma_efields_model(fields@);
        assert(names@.map_values(|s: &str| s@) =~= spec_item_names(spec_efields_model(fields@)));
    }
    texts_distinct(&names)
}

/// Whether render argument names are pairwise distinct.
fn earg_names_distinct(args: &Vec<(Identifier, Expression)>) -> (res: bool)
    ensures
        res == crate::types::model::spec_names_distinct(spec_item_names(spec_eargs_model(args@))),
{
    let mut names: Vec<&str> = Vec::new();
    let mut i: usize = 0;
    while i < args.len()
        invariant
            i <= args@.len(),
            names@.len() == i,
            forall|k: int| 0 <= k < i ==> (#[trigger] names@[k])@ == args@[k].0@,
        decreases args@.len() - i,
    {
        names.push(args[i].0.as_str());
        i = i + 1;
    }
    proof {
        lemma_eargs_model(args@);
        assert(names@.map_values(|s: &str| s@) =~= spec_item_names(spec_eargs_model(args@)));
    }
    texts_distinct(&names)
}

/// The first adjacent pair of stored record field names out of strict UTF-8
/// order, as the failure it reports.
fn field_order_check(fields: &Vec<(String, Expression)>) -> (res: Option<ExpressionError>)
    ensures
        res == spec_field_order(spec_efields_model(fields@), 0),
{
    let ghost fs = spec_efields_model(fields@);
    proof { lemma_efields_model(fields@); }
    let mut i: usize = 0;
    while i < fields.len() && fields.len() - i > 1
        invariant
            i <= fields@.len(),
            fs == spec_efields_model(fields@),
            fs.len() == fields@.len(),
            forall|k: int| 0 <= k < fields@.len() ==> #[trigger] fs[k] == (fields@[k].0@, spec_kind_model(*fields@[k].1.kind)),
            spec_field_order(fs, 0) == spec_field_order(fs, i as int),
        decreases fields@.len() - i,
    {
        assert(fs[i as int].0 == fields@[i as int].0@);
        assert(fs[i + 1].0 == fields@[i + 1].0@);
        if same_text(fields[i].0.as_str(), fields[i + 1].0.as_str()) {
            return Some(ExpressionError::DuplicateField);
        }
        if crate::types::reader::bytes_lt(fields[i + 1].0.as_str().as_bytes(), fields[i].0.as_str().as_bytes()) {
            return Some(ExpressionError::NonCanonical("record field UTF-8 order"));
        }
        i = i + 1;
    }
    None
}

/// Orders record fields by the UTF-8 bytes of their names; the names must be
/// distinct.
#[verifier::rlimit(60)]
fn sort_efields(entries: Vec<(String, Expression)>) -> (res: Vec<(String, Expression)>)
    requires
        crate::types::model::spec_names_distinct(spec_item_names(spec_efields_model(entries@))),
    ensures
        spec_efields_model(res@) == spec_sort_named(spec_efields_model(entries@)),
{
    let ghost unsorted = spec_efields_model(entries@);
    let mut input = entries;
    let mut output: Vec<(String, Expression)> = Vec::new();
    proof {
        lemma_efields_model(input@);
        spec_efields_model(output@).to_multiset_ensures();
        assert(spec_efields_model(output@).to_multiset() =~= vstd::multiset::Multiset::<(Seq<char>, ExprModel)>::empty());
        let names = spec_item_names(unsorted);
        assert forall|a: int, c: int| 0 <= a < c < input@.len() implies spec_utf8((#[trigger] input@[a]).0@)
            != spec_utf8((#[trigger] input@[c]).0@) by {
            assert(names[a] == input@[a].0@);
            assert(names[c] == input@[c].0@);
        }
    }
    while input.len() > 0
        invariant
            unsorted == spec_efields_model(entries@),
            spec_named_sorted(spec_efields_model(output@)),
            forall|a: int, c: int| 0 <= a < output@.len() && 0 <= c < input@.len() ==> crate::cbor::value::spec_lex_lt(
                spec_utf8((#[trigger] output@[a]).0@), spec_utf8((#[trigger] input@[c]).0@)),
            spec_efields_model(output@).to_multiset().add(spec_efields_model(input@).to_multiset()) == unsorted.to_multiset(),
            forall|a: int, c: int| 0 <= a < c < input@.len() ==> spec_utf8((#[trigger] input@[a]).0@)
                != spec_utf8((#[trigger] input@[c]).0@),
        decreases input@.len(),
    {
        let mut min: usize = 0;
        let mut j: usize = 1;
        while j < input.len()
            invariant
                0 <= min < j <= input@.len(),
                forall|a: int, c: int| 0 <= a < c < input@.len() ==> spec_utf8((#[trigger] input@[a]).0@)
                    != spec_utf8((#[trigger] input@[c]).0@),
                forall|k: int| 0 <= k < j && k != min ==> crate::cbor::value::spec_lex_lt(
                    spec_utf8(input@[min as int].0@), spec_utf8((#[trigger] input@[k]).0@)),
            decreases input@.len() - j,
        {
            let smaller = crate::types::reader::bytes_lt(input[j].0.as_str().as_bytes(), input[min].0.as_str().as_bytes());
            proof {
                crate::cbor::keys::lemma_lex_total(spec_utf8(input@[j as int].0@), spec_utf8(input@[min as int].0@));
            }
            if smaller {
                proof {
                    assert forall|k: int| 0 <= k < j + 1 && k != j implies crate::cbor::value::spec_lex_lt(
                        spec_utf8(input@[j as int].0@), spec_utf8((#[trigger] input@[k]).0@)) by {
                        if k != min {
                            crate::cbor::keys::lemma_lex_transitive(spec_utf8(input@[j as int].0@),
                                spec_utf8(input@[min as int].0@), spec_utf8(input@[k].0@));
                        }
                    }
                }
                min = j;
            }
            j = j + 1;
        }
        let ghost before_in = input@;
        let ghost before_out = output@;
        let entry = input.remove(min);
        output.push(entry);
        proof {
            let mi = spec_efields_model(before_in);
            let mo = spec_efields_model(before_out);
            lemma_efields_model(before_in);
            lemma_efields_model(before_out);
            lemma_efields_model(input@);
            lemma_efields_model(output@);
            assert(spec_efields_model(input@) =~= mi.remove(min as int));
            assert(spec_efields_model(output@) =~= mo.push(mi[min as int]));
            vstd::seq_lib::to_multiset_remove(mi, min as int);
            vstd::seq_lib::to_multiset_build(mo, mi[min as int]);
            mi.to_multiset_ensures();
            assert(spec_efields_model(output@).to_multiset().add(spec_efields_model(input@).to_multiset())
                =~= unsorted.to_multiset());
            let no = spec_efields_model(output@);
            assert forall|a: int, c: int| 0 <= a < c < no.len() implies crate::cbor::value::spec_lex_lt(
                spec_utf8((#[trigger] no[a]).0), spec_utf8((#[trigger] no[c]).0)) by {
                if c == no.len() - 1 {
                    assert(no[c] == mi[min as int]);
                    assert(no[a] == mo[a]);
                } else {
                    assert(no[a] == mo[a]);
                    assert(no[c] == mo[c]);
                }
            }
            assert forall|a: int, c: int| 0 <= a < output@.len() && 0 <= c < input@.len() implies crate::cbor::value::spec_lex_lt(
                spec_utf8((#[trigger] output@[a]).0@), spec_utf8((#[trigger] input@[c]).0@)) by {
                let k = if c < min { c } else { c + 1 };
                assert(input@[c] == before_in[k]);
                if a < before_out.len() {
                    assert(output@[a] == before_out[a]);
                } else {
                    assert(output@[a] == before_in[min as int]);
                }
            }
            assert forall|a: int, c: int| 0 <= a < c < input@.len() implies spec_utf8((#[trigger] input@[a]).0@)
                != spec_utf8((#[trigger] input@[c]).0@) by {
                let ka = if a < min { a } else { a + 1 };
                let kc = if c < min { c } else { c + 1 };
                assert(input@[a] == before_in[ka]);
                assert(input@[c] == before_in[kc]);
            }
        }
    }
    proof {
        let mo = spec_efields_model(output@);
        spec_efields_model(input@).to_multiset_ensures();
        assert(spec_efields_model(input@).to_multiset() =~= vstd::multiset::Multiset::<(Seq<char>, ExprModel)>::empty());
        assert(mo.to_multiset() =~= unsorted.to_multiset());
        let w = spec_sort_named(unsorted);
        assert(spec_named_sorted(mo) && mo.to_multiset() == unsorted.to_multiset());
        lemma_named_sorted_unique(mo, w);
    }
    output
}

/// Orders render arguments by the UTF-8 bytes of their names; the names must
/// be distinct.
#[verifier::rlimit(60)]
fn sort_eargs(entries: Vec<(Identifier, Expression)>) -> (res: Vec<(Identifier, Expression)>)
    requires
        crate::types::model::spec_names_distinct(spec_item_names(spec_eargs_model(entries@))),
    ensures
        spec_eargs_model(res@) == spec_sort_named(spec_eargs_model(entries@)),
{
    let ghost unsorted = spec_eargs_model(entries@);
    let mut input = entries;
    let mut output: Vec<(Identifier, Expression)> = Vec::new();
    proof {
        lemma_eargs_model(input@);
        spec_eargs_model(output@).to_multiset_ensures();
        assert(spec_eargs_model(output@).to_multiset() =~= vstd::multiset::Multiset::<(Seq<char>, ExprModel)>::empty());
        let names = spec_item_names(unsorted);
        assert forall|a: int, c: int| 0 <= a < c < input@.len() implies spec_utf8((#[trigger] input@[a]).0@)
            != spec_utf8((#[trigger] input@[c]).0@) by {
            assert(names[a] == input@[a].0@);
            assert(names[c] == input@[c].0@);
        }
    }
    while input.len() > 0
        invariant
            unsorted == spec_eargs_model(entries@),
            spec_named_sorted(spec_eargs_model(output@)),
            forall|a: int, c: int| 0 <= a < output@.len() && 0 <= c < input@.len() ==> crate::cbor::value::spec_lex_lt(
                spec_utf8((#[trigger] output@[a]).0@), spec_utf8((#[trigger] input@[c]).0@)),
            spec_eargs_model(output@).to_multiset().add(spec_eargs_model(input@).to_multiset()) == unsorted.to_multiset(),
            forall|a: int, c: int| 0 <= a < c < input@.len() ==> spec_utf8((#[trigger] input@[a]).0@)
                != spec_utf8((#[trigger] input@[c]).0@),
        decreases input@.len(),
    {
        let mut min: usize = 0;
        let mut j: usize = 1;
        while j < input.len()
            invariant
                0 <= min < j <= input@.len(),
                forall|a: int, c: int| 0 <= a < c < input@.len() ==> spec_utf8((#[trigger] input@[a]).0@)
                    != spec_utf8((#[trigger] input@[c]).0@),
                forall|k: int| 0 <= k < j && k != min ==> crate::cbor::value::spec_lex_lt(
                    spec_utf8(input@[min as int].0@), spec_utf8((#[trigger] input@[k]).0@)),
            decreases input@.len() - j,
        {
            let smaller = crate::types::reader::bytes_lt(input[j].0.as_str().as_bytes(), input[min].0.as_str().as_bytes());
            proof {
                crate::cbor::keys::lemma_lex_total(spec_utf8(input@[j as int].0@), spec_utf8(input@[min as int].0@));
            }
            if smaller {
                proof {
                    assert forall|k: int| 0 <= k < j + 1 && k != j implies crate::cbor::value::spec_lex_lt(
                        spec_utf8(input@[j as int].0@), spec_utf8((#[trigger] input@[k]).0@)) by {
                        if k != min {
                            crate::cbor::keys::lemma_lex_transitive(spec_utf8(input@[j as int].0@),
                                spec_utf8(input@[min as int].0@), spec_utf8(input@[k].0@));
                        }
                    }
                }
                min = j;
            }
            j = j + 1;
        }
        let ghost before_in = input@;
        let ghost before_out = output@;
        let entry = input.remove(min);
        output.push(entry);
        proof {
            let mi = spec_eargs_model(before_in);
            let mo = spec_eargs_model(before_out);
            lemma_eargs_model(before_in);
            lemma_eargs_model(before_out);
            lemma_eargs_model(input@);
            lemma_eargs_model(output@);
            assert(spec_eargs_model(input@) =~= mi.remove(min as int));
            assert(spec_eargs_model(output@) =~= mo.push(mi[min as int]));
            vstd::seq_lib::to_multiset_remove(mi, min as int);
            vstd::seq_lib::to_multiset_build(mo, mi[min as int]);
            mi.to_multiset_ensures();
            assert(spec_eargs_model(output@).to_multiset().add(spec_eargs_model(input@).to_multiset())
                =~= unsorted.to_multiset());
            let no = spec_eargs_model(output@);
            assert forall|a: int, c: int| 0 <= a < c < no.len() implies crate::cbor::value::spec_lex_lt(
                spec_utf8((#[trigger] no[a]).0), spec_utf8((#[trigger] no[c]).0)) by {
                if c == no.len() - 1 {
                    assert(no[c] == mi[min as int]);
                    assert(no[a] == mo[a]);
                } else {
                    assert(no[a] == mo[a]);
                    assert(no[c] == mo[c]);
                }
            }
            assert forall|a: int, c: int| 0 <= a < output@.len() && 0 <= c < input@.len() implies crate::cbor::value::spec_lex_lt(
                spec_utf8((#[trigger] output@[a]).0@), spec_utf8((#[trigger] input@[c]).0@)) by {
                let k = if c < min { c } else { c + 1 };
                assert(input@[c] == before_in[k]);
                if a < before_out.len() {
                    assert(output@[a] == before_out[a]);
                } else {
                    assert(output@[a] == before_in[min as int]);
                }
            }
            assert forall|a: int, c: int| 0 <= a < c < input@.len() implies spec_utf8((#[trigger] input@[a]).0@)
                != spec_utf8((#[trigger] input@[c]).0@) by {
                let ka = if a < min { a } else { a + 1 };
                let kc = if c < min { c } else { c + 1 };
                assert(input@[a] == before_in[ka]);
                assert(input@[c] == before_in[kc]);
            }
        }
    }
    proof {
        let mo = spec_eargs_model(output@);
        spec_eargs_model(input@).to_multiset_ensures();
        assert(spec_eargs_model(input@).to_multiset() =~= vstd::multiset::Multiset::<(Seq<char>, ExprModel)>::empty());
        assert(mo.to_multiset() =~= unsorted.to_multiset());
        let w = spec_sort_named(unsorted);
        assert(spec_named_sorted(mo) && mo.to_multiset() == unsorted.to_multiset());
        lemma_named_sorted_unique(mo, w);
    }
    output
}

/// Orders read record fields: normalizing sorts them by name and refuses
/// repeats; canonical reading refuses repeats and disorder.
fn order_fields(fields: Vec<(String, Expression)>, normalize: bool) -> (res: Result<Vec<(String, Expression)>, ExpressionError>)
    ensures
        match spec_order_fields(spec_efields_model(fields@), normalize) {
            Ok(o) => res matches Ok(r) && spec_efields_model(r@) == o,
            Err(e) => res == Err::<Vec<(String, Expression)>, ExpressionError>(e),
        },
{
    if normalize {
        if efield_names_distinct(&fields) {
            Ok(sort_efields(fields))
        } else {
            Err(ExpressionError::DuplicateField)
        }
    } else {
        match field_order_check(&fields) {
            Some(e) => Err(e),
            None => Ok(fields),
        }
    }
}

/// Puts read render arguments in name order, refusing repeated names.
fn order_args(args: Vec<(Identifier, Expression)>) -> (res: Result<Vec<(Identifier, Expression)>, ExpressionError>)
    ensures
        match spec_order_args(spec_eargs_model(args@)) {
            Ok(o) => res matches Ok(r) && spec_eargs_model(r@) == o,
            Err(e) => res == Err::<Vec<(Identifier, Expression)>, ExpressionError>(e),
        },
{
    if earg_names_distinct(&args) {
        Ok(sort_eargs(args))
    } else {
        Err(ExpressionError::Codec(crate::cbor::error::Error::new(crate::cbor::error::ErrorKind::DuplicateMapKey)))
    }
}

/// Folds a projection into its base: a reference or projection base absorbs
/// the path when normalizing, and is refused otherwise.
fn fold_get(base: Expression, path: Vec<PathStep>, normalize: bool) -> (res: Result<Expression, ExpressionError>)
    ensures
        match spec_fold_get(spec_expr_model(base), spec_path_model(path@), normalize) {
            Ok(m) => res matches Ok(e) && spec_expr_model(e) == m,
            Err(e) => res == Err::<Expression, ExpressionError>(e),
        },
{
    let mut path = path;
    match *base.kind {
        ExpressionKind::Ref { source, path: before } => {
            if !normalize {
                return Err(ExpressionError::NonCanonical("get on reference"));
            }
            let mut before = before;
            let ghost b0 = before@;
            let ghost p0 = path@;
            before.append(&mut path);
            proof { assert(spec_path_model(before@) =~= spec_path_model(b0) + spec_path_model(p0)); }
            Ok(wrap(ExpressionKind::Ref { source, path: before }))
        },
        ExpressionKind::Get { value, path: before } => {
            if !normalize {
                return Err(ExpressionError::NonCanonical("nested get"));
            }
            let mut before = before;
            let ghost b0 = before@;
            let ghost p0 = path@;
            before.append(&mut path);
            proof { assert(spec_path_model(before@) =~= spec_path_model(b0) + spec_path_model(p0)); }
            Ok(wrap(ExpressionKind::Get { value, path: before }))
        },
        other => Ok(wrap(ExpressionKind::Get { value: Box::new(wrap(other)), path })),
    }
}

} // verus!

verus! {

/// A failed prefix of expressions fails every longer prefix alike.
proof fn lemma_exprs_err_extends(items: Seq<Value>, c: ExpressionContext, normalize: bool, i: int, j: int)
    requires
        0 <= i <= j <= items.len(),
        spec_read_exprs(items.take(i), c, normalize) is Err,
    ensures
        spec_read_exprs(items.take(j), c, normalize) == spec_read_exprs(items.take(i), c, normalize),
    decreases j - i,
{
    if i < j {
        lemma_exprs_err_extends(items, c, normalize, i, j - 1);
        assert(items.take(j).drop_last() =~= items.take(j - 1));
    }
}

/// A failed prefix of record field pairs fails every longer prefix alike.
proof fn lemma_efields_err_extends(items: Seq<Value>, c: ExpressionContext, normalize: bool, i: int, j: int)
    requires
        0 <= i <= j <= items.len(),
        spec_read_efields(items.take(i), c, normalize) is Err,
    ensures
        spec_read_efields(items.take(j), c, normalize) == spec_read_efields(items.take(i), c, normalize),
    decreases j - i,
{
    if i < j {
        lemma_efields_err_extends(items, c, normalize, i, j - 1);
        assert(items.take(j).drop_last() =~= items.take(j - 1));
    }
}

/// A failed prefix of render arguments fails every longer prefix alike.
proof fn lemma_eargs_err_extends(entries: Seq<(String, Value)>, c: ExpressionContext, normalize: bool, i: int, j: int)
    requires
        0 <= i <= j <= entries.len(),
        spec_read_eargs(entries.take(i), c, normalize) is Err,
    ensures
        spec_read_eargs(entries.take(j), c, normalize) == spec_read_eargs(entries.take(i), c, normalize),
    decreases j - i,
{
    if i < j {
        lemma_eargs_err_extends(entries, c, normalize, i, j - 1);
        assert(entries.take(j).drop_last() =~= entries.take(j - 1));
    }
}

/// Reads an expression record in context `c`; canonical reading refuses
/// what normalizing repairs.
pub(crate) fn parse_expr(v: &Value, c: ExpressionContext, normalize: bool) -> (res: Result<Expression, ExpressionError>)
    ensures
        match spec_read_expr(*v, c, normalize) {
            Ok(m) => res matches Ok(e) && spec_expr_model(e) == m,
            Err(e) => res == Err::<Expression, ExpressionError>(e),
        },
    decreases *v, 2nat,
{
    let a = match v {
        Value::Array(a) => a,
        _ => return Err(ExpressionError::InvalidShape("expression")),
    };
    if a.len() == 0 {
        return Err(ExpressionError::InvalidShape("expression tag"));
    }
    let tag = match &a[0] {
        Value::Text(t) => t.as_str(),
        _ => return Err(ExpressionError::InvalidShape("expression tag")),
    };
    let n = match expr_arity(tag) {
        Some(n) => n,
        None => return Err(ExpressionError::UnknownConstructor),
    };
    if a.len() != n {
        return Err(ExpressionError::InvalidShape("constructor arity"));
    }
    parse_body(tag, a, c, normalize)
}

/// Reads the elements of an expression record with a known tag.
fn parse_body(tag: &str, a: &Vec<Value>, c: ExpressionContext, normalize: bool) -> (res: Result<Expression, ExpressionError>)
    requires
        spec_expr_arity(tag@) is Some,
    ensures
        match spec_read_body(tag@, a@, c, normalize) {
            Ok(m) => res matches Ok(e) && spec_expr_model(e) == m,
            Err(e) => res == Err::<Expression, ExpressionError>(e),
        },
    decreases a@, 1nat,
{
    if a.len() < 2 {
        return Err(ExpressionError::InvalidShape("constructor arity"));
    }
    if same_text(tag, "literal") {
        let s = read_scalar(&a[1])?;
        return Ok(wrap(ExpressionKind::Literal(s)));
    }
    let is_status = same_text(tag, "status");
    if is_status || same_text(tag, "error") {
        if let Some(e) = super::builder::outcome_check(c) {
            return Err(e);
        }
        let n = read_name(&a[1])?;
        return Ok(wrap(if is_status { ExpressionKind::Status(n) } else { ExpressionKind::Error(n) }));
    }
    if same_text(tag, "list") {
        return parse_list_body(&a[1], c, normalize);
    }
    if same_text(tag, "record") {
        return parse_record_body(&a[1], c, normalize);
    }
    if same_text(tag, "not") {
        let x = parse_expr(&a[1], c, normalize)?;
        return Ok(wrap(ExpressionKind::Not(Box::new(x))));
    }
    if a.len() < 3 {
        return Err(ExpressionError::InvalidShape("constructor arity"));
    }
    if same_text(tag, "regex") {
        let p = read_text(&a[1], "regex pattern")?;
        let f = read_text(&a[2], "regex flags")?;
        let g = read_flags(f, normalize)?;
        return Ok(wrap(ExpressionKind::Regex { pattern: String::from_str(p), flags: g }));
    }
    if same_text(tag, "ref") {
        let r = read_ref(&a[1], c)?;
        let p = read_path(&a[2])?;
        return Ok(wrap(ExpressionKind::Ref { source: r, path: p }));
    }
    if same_text(tag, "function_ref") {
        let b = read_digest(&a[1])?;
        let n = read_name(&a[2])?;
        return Ok(wrap(ExpressionKind::FunctionRef { library: b, name: n }));
    }
    if same_text(tag, "get") {
        return parse_get_body(a, c, normalize);
    }
    if same_text(tag, "call") {
        return parse_call_body(a, c, normalize);
    }
    if same_text(tag, "render") {
        return parse_render_body(a, c, normalize);
    }
    parse_binary_body(tag, a, c, normalize)
}

/// Reads a list's elements.
fn parse_list_body(x: &Value, c: ExpressionContext, normalize: bool) -> (res: Result<Expression, ExpressionError>)
    ensures
        match spec_read_list_body(*x, c, normalize) {
            Ok(m) => res matches Ok(e) && spec_expr_model(e) == m,
            Err(e) => res == Err::<Expression, ExpressionError>(e),
        },
    decreases *x, 0nat,
{
    let items = match x {
        Value::Array(items) => items,
        _ => return Err(ExpressionError::InvalidShape("expression list")),
    };
    let ms = parse_exprs(items, c, normalize)?;
    Ok(wrap(ExpressionKind::List(ms)))
}

/// Reads a record's fields, then orders them.
fn parse_record_body(x: &Value, c: ExpressionContext, normalize: bool) -> (res: Result<Expression, ExpressionError>)
    ensures
        match spec_read_record_body(*x, c, normalize) {
            Ok(m) => res matches Ok(e) && spec_expr_model(e) == m,
            Err(e) => res == Err::<Expression, ExpressionError>(e),
        },
    decreases *x, 0nat,
{
    let items = match x {
        Value::Array(items) => items,
        _ => return Err(ExpressionError::InvalidShape("record expression fields")),
    };
    let fs = parse_efields(items, c, normalize)?;
    let o = order_fields(fs, normalize)?;
    Ok(wrap(ExpressionKind::Record(o)))
}

/// Reads a projection: its base, then a nonempty path, folded.
fn parse_get_body(a: &Vec<Value>, c: ExpressionContext, normalize: bool) -> (res: Result<Expression, ExpressionError>)
    ensures
        match spec_read_get_body(a@, c, normalize) {
            Ok(m) => res matches Ok(e) && spec_expr_model(e) == m,
            Err(e) => res == Err::<Expression, ExpressionError>(e),
        },
    decreases a@, 0nat,
{
    if a.len() < 3 {
        return Err(ExpressionError::InvalidShape("constructor arity"));
    }
    let base = parse_expr(&a[1], c, normalize)?;
    let path = read_path(&a[2])?;
    if path.len() == 0 {
        return Err(ExpressionError::InvalidShape("nonempty get path"));
    }
    fold_get(base, path, normalize)
}

/// Reads a call: its identity, its arity when core, then its arguments.
fn parse_call_body(a: &Vec<Value>, c: ExpressionContext, normalize: bool) -> (res: Result<Expression, ExpressionError>)
    ensures
        match spec_read_call_body(a@, c, normalize) {
            Ok(m) => res matches Ok(e) && spec_expr_model(e) == m,
            Err(e) => res == Err::<Expression, ExpressionError>(e),
        },
    decreases a@, 0nat,
{
    if a.len() < 3 {
        return Err(ExpressionError::InvalidShape("constructor arity"));
    }
    let f = read_fn(&a[1])?;
    let is_core = match f {
        FunctionId::Core(_) => true,
        _ => false,
    };
    let items = match &a[2] {
        Value::Array(items) => items,
        _ => {
            if is_core {
                return Err(ExpressionError::InvalidShape("call arguments"));
            }
            return Err(ExpressionError::InvalidShape("expression list"));
        },
    };
    if is_core && items.len() != 1 {
        return Err(ExpressionError::InvalidShape("core function arity"));
    }
    let ms = parse_exprs(items, c, normalize)?;
    Ok(wrap(ExpressionKind::Call { function: f, arguments: ms }))
}

/// Reads a render: its template digest, then its named arguments in name order.
fn parse_render_body(a: &Vec<Value>, c: ExpressionContext, normalize: bool) -> (res: Result<Expression, ExpressionError>)
    ensures
        match spec_read_render_body(a@, c, normalize) {
            Ok(m) => res matches Ok(e) && spec_expr_model(e) == m,
            Err(e) => res == Err::<Expression, ExpressionError>(e),
        },
    decreases a@, 0nat,
{
    if a.len() < 3 {
        return Err(ExpressionError::InvalidShape("constructor arity"));
    }
    let b = read_digest(&a[1])?;
    let m = match &a[2] {
        Value::Object(m) => m,
        _ => return Err(ExpressionError::InvalidShape("render arguments")),
    };
    let args = parse_eargs(&m.entries, c, normalize)?;
    let o = order_args(args)?;
    Ok(wrap(ExpressionKind::Render { template: b, arguments: o }))
}

/// Reads a binary operator's operands, left then right.
fn parse_binary_body(tag: &str, a: &Vec<Value>, c: ExpressionContext, normalize: bool) -> (res: Result<Expression, ExpressionError>)
    requires
        exists|op: BinaryOperator| spec_operator_tag(op) == tag@,
    ensures
        match spec_read_binary_body(tag@, a@, c, normalize) {
            Ok(m) => res matches Ok(e) && spec_expr_model(e) == m,
            Err(e) => res == Err::<Expression, ExpressionError>(e),
        },
    decreases a@, 0nat,
{
    if a.len() < 3 {
        return Err(ExpressionError::InvalidShape("constructor arity"));
    }
    let op = match BinaryOperator::parse(tag) {
        Some(op) => op,
        None => return Err(ExpressionError::UnknownConstructor),
    };
    proof { super::lemma_operator_tags_distinct(op, spec_operator_of(tag@)); }
    let x = parse_expr(&a[1], c, normalize)?;
    let y = parse_expr(&a[2], c, normalize)?;
    Ok(wrap(ExpressionKind::Binary { operator: op, left: Box::new(x), right: Box::new(y) }))
}

/// Reads expressions in order; the first failure is reported.
fn parse_exprs(items: &Vec<Value>, c: ExpressionContext, normalize: bool) -> (res: Result<Vec<Expression>, ExpressionError>)
    ensures
        match spec_read_exprs(items@, c, normalize) {
            Ok(ms) => res matches Ok(r) && spec_exprs_model(r@) == ms,
            Err(e) => res == Err::<Vec<Expression>, ExpressionError>(e),
        },
    decreases items@, 0nat,
{
    let mut out: Vec<Expression> = Vec::new();
    let mut i: usize = 0;
    proof { assert(items@.take(0) =~= Seq::<Value>::empty()); }
    while i < items.len()
        invariant
            i <= items@.len(),
            spec_read_exprs(items@.take(i as int), c, normalize) == Ok::<Seq<ExprModel>, ExpressionError>(spec_exprs_model(out@)),
        decreases items@.len() - i,
    {
        proof {
            assert(items@.take(i + 1).drop_last() =~= items@.take(i as int));
            assert(items@.take(i + 1).last() == items@[i as int]);
        }
        let x = match parse_expr(&items[i], c, normalize) {
            Ok(x) => x,
            Err(e) => {
                proof {
                    lemma_exprs_err_extends(items@, c, normalize, i + 1, items@.len() as int);
                    assert(items@.take(items@.len() as int) =~= items@);
                }
                return Err(e);
            },
        };
        let ghost before = out@;
        out.push(x);
        proof { assert(out@.drop_last() =~= before); }
        i = i + 1;
    }
    proof { assert(items@.take(items@.len() as int) =~= items@); }
    Ok(out)
}

/// Reads record field pairs in stored order: each a `[key, expression]` array.
fn parse_efields(items: &Vec<Value>, c: ExpressionContext, normalize: bool)
    -> (res: Result<Vec<(String, Expression)>, ExpressionError>)
    ensures
        match spec_read_efields(items@, c, normalize) {
            Ok(fs) => res matches Ok(r) && spec_efields_model(r@) == fs,
            Err(e) => res == Err::<Vec<(String, Expression)>, ExpressionError>(e),
        },
    decreases items@, 0nat,
{
    let mut out: Vec<(String, Expression)> = Vec::new();
    let mut i: usize = 0;
    proof { assert(items@.take(0) =~= Seq::<Value>::empty()); }
    while i < items.len()
        invariant
            i <= items@.len(),
            spec_read_efields(items@.take(i as int), c, normalize)
                == Ok::<Seq<(Seq<char>, ExprModel)>, ExpressionError>(spec_efields_model(out@)),
        decreases items@.len() - i,
    {
        proof {
            assert(items@.take(i + 1).drop_last() =~= items@.take(i as int));
            assert(items@.take(i + 1).last() == items@[i as int]);
        }
        let read = match &items[i] {
            Value::Array(p) => {
                if p.len() != 2 {
                    Err(ExpressionError::InvalidShape("constructor arity"))
                } else {
                    match read_text(&p[0], "record key") {
                        Err(e) => Err(e),
                        Ok(k) => match parse_expr(&p[1], c, normalize) {
                            Ok(m) => Ok((String::from_str(k), m)),
                            Err(e) => Err(e),
                        },
                    }
                }
            },
            _ => Err(ExpressionError::InvalidShape("record expression pair")),
        };
        let pair = match read {
            Ok(pair) => pair,
            Err(e) => {
                proof {
                    lemma_efields_err_extends(items@, c, normalize, i + 1, items@.len() as int);
                    assert(items@.take(items@.len() as int) =~= items@);
                }
                return Err(e);
            },
        };
        let ghost before = out@;
        out.push(pair);
        proof { assert(out@.drop_last() =~= before); }
        i = i + 1;
    }
    proof { assert(items@.take(items@.len() as int) =~= items@); }
    Ok(out)
}

/// Reads render arguments in stored order: identifier keys and expressions.
fn parse_eargs(entries: &Vec<(String, Value)>, c: ExpressionContext, normalize: bool)
    -> (res: Result<Vec<(Identifier, Expression)>, ExpressionError>)
    ensures
        match spec_read_eargs(entries@, c, normalize) {
            Ok(args) => res matches Ok(r) && spec_eargs_model(r@) == args,
            Err(e) => res == Err::<Vec<(Identifier, Expression)>, ExpressionError>(e),
        },
    decreases entries@, 0nat,
{
    let mut out: Vec<(Identifier, Expression)> = Vec::new();
    let mut i: usize = 0;
    proof { assert(entries@.take(0) =~= Seq::<(String, Value)>::empty()); }
    while i < entries.len()
        invariant
            i <= entries@.len(),
            spec_read_eargs(entries@.take(i as int), c, normalize)
                == Ok::<Seq<(Seq<char>, ExprModel)>, ExpressionError>(spec_eargs_model(out@)),
        decreases entries@.len() - i,
    {
        proof {
            assert(entries@.take(i + 1).drop_last() =~= entries@.take(i as int));
            assert(entries@.take(i + 1).last() == entries@[i as int]);
            crate::identifier::lemma_identifier_error_iff(spec_utf8(entries@[i as int].0@));
        }
        let read = match Identifier::parse(entries[i].0.as_str()) {
            Err(e) => Err(ExpressionError::Identifier(e)),
            Ok(id) => match parse_expr(&entries[i].1, c, normalize) {
                Ok(m) => Ok((id, m)),
                Err(e) => Err(e),
            },
        };
        let pair = match read {
            Ok(pair) => pair,
            Err(e) => {
                proof {
                    lemma_eargs_err_extends(entries@, c, normalize, i + 1, entries@.len() as int);
                    assert(entries@.take(entries@.len() as int) =~= entries@);
                }
                return Err(e);
            },
        };
        let ghost before = out@;
        out.push(pair);
        proof { assert(out@.drop_last() =~= before); }
        i = i + 1;
    }
    proof { assert(entries@.take(entries@.len() as int) =~= entries@); }
    Ok(out)
}

} // verus!

verus! {

/// Or-ing one flag bit into a mask below eight.
proof fn lemma_flag_or(m: u8, b: u8)
    by (bit_vector)
    requires
        m < 8,
        b == 1 || b == 2 || b == 4,
    ensures
        (m | b) < 8,
        ((m | b) & 1 != 0) == ((m & 1 != 0) || b == 1),
        ((m | b) & 2 != 0) == ((m & 2 != 0) || b == 2),
        ((m | b) & 4 != 0) == ((m & 4 != 0) || b == 4),
        (m & b != 0) == ((b == 1 && m & 1 != 0) || (b == 2 && m & 2 != 0) || (b == 4 && m & 4 != 0)),
        0u8 & 1u8 == 0 && 0u8 & 2u8 == 0 && 0u8 & 4u8 == 0,
{
}

/// A flag mask records exactly which of `i`, `m`, `s` the bytes hold.
proof fn lemma_flags_mask_bits(bs: Seq<u8>)
    requires
        spec_flags_mask(bs) is Some,
    ensures
        ({
            let m = spec_flags_mask(bs)->Some_0;
            &&& m < 8
            &&& (bs.contains(0x69) <==> m & 1 != 0)
            &&& (bs.contains(0x6d) <==> m & 2 != 0)
            &&& (bs.contains(0x73) <==> m & 4 != 0)
            &&& forall|k: int| 0 <= k < bs.len() ==> spec_flag_bit(#[trigger] bs[k]) is Some
        }),
    decreases bs.len(),
{
    if bs.len() == 0 {
        lemma_flag_or(0, 1);
    } else {
        let d = bs.drop_last();
        lemma_flags_mask_bits(d);
        let m0 = spec_flags_mask(d)->Some_0;
        let b = spec_flag_bit(bs.last())->Some_0;
        lemma_flag_or(m0, b);
        assert forall|x: u8| bs.contains(x) <==> (d.contains(x) || bs.last() == x) by {
            if bs.contains(x) {
                let k = choose|k: int| 0 <= k < bs.len() && bs[k] == x;
                if k < bs.len() - 1 {
                    assert(d[k] == x);
                }
            }
            if d.contains(x) {
                let k = choose|k: int| 0 <= k < d.len() && d[k] == x;
                assert(bs[k] == x);
            }
            assert(bs[bs.len() - 1] == bs.last());
        }
        assert forall|k: int| 0 <= k < bs.len() implies spec_flag_bit(#[trigger] bs[k]) is Some by {
            if k < bs.len() - 1 {
                assert(bs[k] == d[k]);
            }
        }
    }
}

/// The bytes of an ASCII text.
proof fn lemma_ascii_bytes(t: Seq<char>, bs: Seq<u8>)
    requires
        t.len() == bs.len(),
        forall|i: int| 0 <= i < t.len() ==> (t[i] as u8) == bs[i] && '\0' <= #[trigger] t[i] <= '\u{7f}',
    ensures
        spec_utf8(t) == bs,
{
    assert(vstd::utf8::is_ascii_chars(t));
    vstd::utf8::is_ascii_chars_encode_utf8(t);
    assert(spec_utf8(t) =~= bs);
}

/// The canonical spelling of a flag mask reads back as that mask.
proof fn lemma_canonical_flags_mask(m: u8)
    requires
        m < 8,
    ensures
        spec_flags_mask(spec_utf8(spec_canonical_flags(m))) == Some(m),
{
    reveal_strlit("");
    reveal_strlit("i");
    reveal_strlit("m");
    reveal_strlit("im");
    reveal_strlit("s");
    reveal_strlit("is");
    reveal_strlit("ms");
    reveal_strlit("ims");
    reveal_with_fuel(spec_flags_mask, 4);
    lemma_flag_or(0, 1);
    lemma_flag_or(0, 2);
    lemma_flag_or(0, 4);
    lemma_flag_or(1, 2);
    lemma_flag_or(1, 4);
    lemma_flag_or(2, 4);
    lemma_flag_or(3, 4);
    assert((0u8 | 1u8) == 1 && (0u8 | 2u8) == 2 && (0u8 | 4u8) == 4 && (1u8 | 2u8) == 3 && (1u8 | 4u8) == 5
        && (2u8 | 4u8) == 6 && (3u8 | 4u8) == 7 && (1u8 & 2u8) == 0 && (1u8 & 4u8) == 0 && (2u8 & 4u8) == 0
        && (3u8 & 4u8) == 0 && (0u8 & 1u8) == 0 && (0u8 & 2u8) == 0 && (0u8 & 4u8) == 0) by (bit_vector);
    let t = spec_canonical_flags(m);
    if m == 0 {
        lemma_ascii_bytes(t, Seq::<u8>::empty());
    } else if m == 1 {
        lemma_ascii_bytes(t, seq![0x69u8]);
        assert(seq![0x69u8].drop_last() =~= Seq::<u8>::empty());
    } else if m == 2 {
        lemma_ascii_bytes(t, seq![0x6du8]);
        assert(seq![0x6du8].drop_last() =~= Seq::<u8>::empty());
    } else if m == 3 {
        lemma_ascii_bytes(t, seq![0x69u8, 0x6d]);
        assert(seq![0x69u8, 0x6d].drop_last() =~= seq![0x69u8]);
        assert(seq![0x69u8].drop_last() =~= Seq::<u8>::empty());
    } else if m == 4 {
        lemma_ascii_bytes(t, seq![0x73u8]);
        assert(seq![0x73u8].drop_last() =~= Seq::<u8>::empty());
    } else if m == 5 {
        lemma_ascii_bytes(t, seq![0x69u8, 0x73]);
        assert(seq![0x69u8, 0x73].drop_last() =~= seq![0x69u8]);
        assert(seq![0x69u8].drop_last() =~= Seq::<u8>::empty());
    } else if m == 6 {
        lemma_ascii_bytes(t, seq![0x6du8, 0x73]);
        assert(seq![0x6du8, 0x73].drop_last() =~= seq![0x6du8]);
        assert(seq![0x6du8].drop_last() =~= Seq::<u8>::empty());
    } else {
        lemma_ascii_bytes(t, seq![0x69u8, 0x6d, 0x73]);
        assert(seq![0x69u8, 0x6d, 0x73].drop_last() =~= seq![0x69u8, 0x6d]);
        assert(seq![0x69u8, 0x6d].drop_last() =~= seq![0x69u8]);
        assert(seq![0x69u8].drop_last() =~= Seq::<u8>::empty());
    }
}

/// Reading regex flags keeps exactly the flags given: the result holds `i`,
/// `m` and `s` exactly when the input does, reads the same mask, and is
/// already canonical; every unrepeated set of known flags is accepted when
/// normalizing.
pub proof fn lemma_flags_keep_flags(f: Seq<char>, normalize: bool)
    ensures
        spec_read_flags(f, normalize) matches Ok(g) ==> (
            (spec_utf8(g).contains(0x69) <==> spec_utf8(f).contains(0x69))
            && (spec_utf8(g).contains(0x6d) <==> spec_utf8(f).contains(0x6d))
            && (spec_utf8(g).contains(0x73) <==> spec_utf8(f).contains(0x73))
            && spec_flags_mask(spec_utf8(g)) == spec_flags_mask(spec_utf8(f))
            && spec_read_flags(g, false) == Ok::<Seq<char>, ExpressionError>(g)),
        spec_flags_mask(spec_utf8(f)) is Some ==> spec_read_flags(f, true) is Ok,
{
    if spec_flags_mask(spec_utf8(f)) is Some {
        let m = spec_flags_mask(spec_utf8(f))->Some_0;
        lemma_flags_mask_bits(spec_utf8(f));
        lemma_canonical_flags_mask(m);
        lemma_flags_mask_bits(spec_utf8(spec_canonical_flags(m)));
    }
}

} // verus!
